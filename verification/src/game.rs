//! Game logic and state management: move validation, win detection, and
//! starting-player alternation across consecutive rounds.

use vstd::prelude::*;
use vstd::string::StringExecFns;

use crate::board::{Board, Owner, Size};
pub use crate::board::Position;

verus! {

/// The number of rows and columns of a Tic Tac Toe board.
pub open spec fn spec_board_size() -> Size {
    Size { rows: 3, columns: 3 }
}

/// The position at row-major index `i` of a 3x3 grid.
pub open spec fn spec_pos(i: int) -> Position {
    Position { row: (i / 3) as i32, column: (i % 3) as i32 }
}

/// The row-major index of a position of a 3x3 grid.
pub open spec fn spec_idx(p: Position) -> int {
    p.row * 3 + p.column
}

/// Whether a position lies inside a 3x3 grid.
pub open spec fn spec_in_grid(p: Position) -> bool {
    0 <= p.row < 3 && 0 <= p.column < 3
}

/// The eight straight lines of a 3x3 grid: three rows, three columns and the
/// two diagonals.
pub open spec fn spec_lines() -> Seq<Seq<Position>> {
    seq![
        seq![spec_pos(0), spec_pos(1), spec_pos(2)],
        seq![spec_pos(3), spec_pos(4), spec_pos(5)],
        seq![spec_pos(6), spec_pos(7), spec_pos(8)],
        seq![spec_pos(0), spec_pos(3), spec_pos(6)],
        seq![spec_pos(1), spec_pos(4), spec_pos(7)],
        seq![spec_pos(2), spec_pos(5), spec_pos(8)],
        seq![spec_pos(0), spec_pos(4), spec_pos(8)],
        seq![spec_pos(2), spec_pos(4), spec_pos(6)],
    ]
}

/// Whether all three squares of a line carry the same mark of one player.
pub open spec fn spec_line_won(g: Seq<Owner>, line: Seq<Position>) -> bool {
    &&& g[spec_idx(line[0])] != Owner::Nobody
    &&& g[spec_idx(line[1])] == g[spec_idx(line[0])]
    &&& g[spec_idx(line[2])] == g[spec_idx(line[0])]
}

/// The positions that belong to some completed line, for lines `from`
/// (inclusive) up to `to` (exclusive) of `spec_lines()`.
#[verifier::opaque]
pub open spec fn spec_lines_win_set(g: Seq<Owner>, from: int, to: int) -> Set<Position> {
    Set::new(
        |p: Position|
            exists|k: int|
                from <= k < to && #[trigger] spec_line_won(g, spec_lines()[k]) && spec_lines()[k].contains(
                    p,
                ),
    )
}

/// The winning positions of a grid: every position lying on a completed row,
/// column or diagonal. A single move can complete several lines at once; the
/// positions of all of them are included.
pub open spec fn spec_win_positions(g: Seq<Owner>) -> Set<Position> {
    spec_lines_win_set(g, 0, 8)
}

/// The free positions among the first `n` squares of a grid, in row-major
/// order.
pub open spec fn spec_free_prefix(g: Seq<Owner>, n: int) -> Seq<Position>
    decreases n,
{
    if n <= 0 {
        Seq::empty()
    } else {
        spec_free_prefix(g, n - 1) + if g[n - 1] == Owner::Nobody {
            seq![spec_pos(n - 1)]
        } else {
            Seq::empty()
        }
    }
}

/// The free positions of a grid in row-major order.
pub open spec fn spec_free_seq(g: Seq<Owner>) -> Seq<Position> {
    spec_free_prefix(g, 9)
}

/// The number of free squares of a grid.
pub open spec fn spec_free_count(g: Seq<Owner>) -> int {
    spec_free_seq(g).len() as int
}

/// Round trip from a contained position to its row-major index and back.
pub proof fn lemma_pos_idx(p: Position)
    requires
        spec_in_grid(p),
    ensures
        0 <= spec_idx(p) < 9,
        spec_pos(spec_idx(p)) == p,
{
    vstd::arithmetic::div_mod::lemma_fundamental_div_mod_converse_div(
        spec_idx(p),
        3,
        p.row as int,
        p.column as int,
    );
    vstd::arithmetic::div_mod::lemma_fundamental_div_mod_converse_mod(
        spec_idx(p),
        3,
        p.row as int,
        p.column as int,
    );
}

/// Round trip from a row-major index to its position and back.
pub proof fn lemma_idx_pos(i: int)
    requires
        0 <= i < 9,
    ensures
        spec_in_grid(spec_pos(i)),
        spec_idx(spec_pos(i)) == i,
{
    vstd::arithmetic::div_mod::lemma_fundamental_div_mod(i, 3);
    vstd::arithmetic::div_mod::lemma_mod_bound(i, 3);
}

/// A position is listed by `spec_free_prefix(g, n)` exactly when it lies in
/// the first `n` squares of the grid and its square is free.
pub proof fn lemma_free_prefix_membership(g: Seq<Owner>, n: int, p: Position)
    requires
        0 <= n <= 9,
    ensures
        spec_free_prefix(g, n).contains(p) <==> (spec_in_grid(p) && 0 <= spec_idx(p) < n && g[spec_idx(p)]
            == Owner::Nobody),
    decreases n,
{
    if n > 0 {
        lemma_free_prefix_membership(g, n - 1, p);
        lemma_idx_pos(n - 1);
        let f1 = spec_free_prefix(g, n - 1);
        let f = spec_free_prefix(g, n);
        if f.contains(p) {
            let j = choose|j: int| 0 <= j < f.len() && f[j] == p;
            if j < f1.len() {
                assert(f1[j] == p);
                assert(f1.contains(p));
            } else {
                assert(p == spec_pos(n - 1) && g[n - 1] == Owner::Nobody);
            }
        }
        if spec_in_grid(p) && 0 <= spec_idx(p) < n && g[spec_idx(p)] == Owner::Nobody {
            if spec_idx(p) < n - 1 {
                let j = choose|j: int| 0 <= j < f1.len() && f1[j] == p;
                assert(f[j] == p);
                assert(f.contains(p));
            } else {
                lemma_pos_idx(p);
                assert(p == spec_pos(n - 1));
                assert(f[f.len() - 1] == p);
                assert(f.contains(p));
            }
        }
    }
}

/// The free positions of a grid are listed without repetition.
pub proof fn lemma_free_prefix_no_duplicates(g: Seq<Owner>, n: int)
    requires
        0 <= n <= 9,
    ensures
        spec_free_prefix(g, n).no_duplicates(),
        forall|j: int|
            0 <= j < spec_free_prefix(g, n).len() ==> spec_in_grid(
                #[trigger] spec_free_prefix(g, n)[j],
            ) && spec_idx(spec_free_prefix(g, n)[j]) < n && g[spec_idx(spec_free_prefix(g, n)[j])]
                == Owner::Nobody,
    decreases n,
{
    if n > 0 {
        lemma_free_prefix_no_duplicates(g, n - 1);
        if g[n - 1] == Owner::Nobody {
            assert(spec_in_grid(spec_pos(n - 1)) && spec_idx(spec_pos(n - 1)) == n - 1);
            assert forall|j: int| 0 <= j < spec_free_prefix(g, n).len() implies spec_in_grid(
                #[trigger] spec_free_prefix(g, n)[j],
            ) && spec_idx(spec_free_prefix(g, n)[j]) < n && g[spec_idx(spec_free_prefix(g, n)[j])]
                == Owner::Nobody by {
                if j < spec_free_prefix(g, n - 1).len() {
                    assert(spec_free_prefix(g, n)[j] == spec_free_prefix(g, n - 1)[j]);
                } else {
                    assert(spec_free_prefix(g, n)[j] == spec_pos(n - 1));
                }
            }
        }
    }
}

/// All line cells lie inside the grid, and their indices are in range.
pub proof fn lemma_line_cells()
    ensures
        forall|k: int, j: int|
            0 <= k < 8 && 0 <= j < 3 ==> spec_in_grid(#[trigger] spec_lines()[k][j]) && 0
                <= spec_idx(spec_lines()[k][j]) < 9,
{
    lemma_idx_pos(0);
    lemma_idx_pos(1);
    lemma_idx_pos(2);
    lemma_idx_pos(3);
    lemma_idx_pos(4);
    lemma_idx_pos(5);
    lemma_idx_pos(6);
    lemma_idx_pos(7);
    lemma_idx_pos(8);
}

/// A grid without any marks has no winning positions.
pub proof fn lemma_all_free_no_wins(g: Seq<Owner>)
    requires
        forall|i: int| 0 <= i < 9 ==> g[i] == Owner::Nobody,
    ensures
        spec_win_positions(g).is_empty(),
{
    reveal(spec_lines_win_set);
    lemma_line_cells();
    assert forall|p: Position| !spec_win_positions(g).contains(p) by {
        if spec_win_positions(g).contains(p) {
            let k = choose|k: int|
                0 <= k < 8 && #[trigger] spec_line_won(g, spec_lines()[k])
                    && spec_lines()[k].contains(p);
            assert(g[spec_idx(spec_lines()[k][0])] != Owner::Nobody);
        }
    }
    assert(spec_win_positions(g) =~= Set::empty());
}

/// A grid prefix cannot list more free squares than it has squares.
pub proof fn lemma_free_prefix_len_bound(g: Seq<Owner>, n: int)
    requires
        0 <= n <= 9,
    ensures
        spec_free_prefix(g, n).len() <= n,
    decreases n,
{
    if n > 0 {
        lemma_free_prefix_len_bound(g, n - 1);
    }
}

/// On a grid without any marks, every square is listed as free.
pub proof fn lemma_free_prefix_all_free(g: Seq<Owner>, n: int)
    requires
        0 <= n <= 9,
        forall|i: int| 0 <= i < 9 ==> g[i] == Owner::Nobody,
    ensures
        spec_free_prefix(g, n).len() == n,
    decreases n,
{
    if n > 0 {
        lemma_free_prefix_all_free(g, n - 1);
    }
}

/// Marking one free square removes exactly that square from the free list:
/// the count drops by one.
pub proof fn lemma_free_prefix_update(g: Seq<Owner>, i: int, o: Owner, n: int)
    requires
        0 <= n <= 9,
        0 <= i < 9,
        g.len() == 9,
        g[i] == Owner::Nobody,
        o != Owner::Nobody,
    ensures
        spec_free_prefix(g.update(i, o), n).len() == spec_free_prefix(g, n).len() - (if i < n {
            1int
        } else {
            0int
        }),
    decreases n,
{
    if n > 0 {
        lemma_free_prefix_update(g, i, o, n - 1);
        if i == n - 1 {
            assert(g.update(i, o)[n - 1] == o);
        } else {
            assert(g.update(i, o)[n - 1] == g[n - 1]);
        }
    }
}

/// Whether all squares of a walked ray carry one player's mark: the ray is
/// non-empty, its first square is owned, and every square agrees with it.
pub open spec fn spec_ray_won(g: Seq<Owner>, cells: Seq<Position>) -> bool {
    &&& cells.len() >= 1
    &&& g[spec_idx(cells[0])] != Owner::Nobody
    &&& forall|j: int| 0 <= j < cells.len() ==> g[spec_idx(#[trigger] cells[j])] == g[spec_idx(cells[0])]
}

/// A three-cell line is won exactly when the ray over its cells is won.
pub proof fn lemma_ray_won_is_line_won(g: Seq<Owner>, k: int)
    requires
        0 <= k < 8,
    ensures
        spec_ray_won(g, spec_lines()[k]) <==> spec_line_won(g, spec_lines()[k]),
{
    let line = spec_lines()[k];
    assert(line.len() == 3);
    if spec_line_won(g, line) {
        assert forall|j: int| 0 <= j < line.len() implies g[spec_idx(#[trigger] line[j])]
            == g[spec_idx(line[0])] by {
            if j == 1 {
                assert(g[spec_idx(line[1])] == g[spec_idx(line[0])]);
            } else if j == 2 {
                assert(g[spec_idx(line[2])] == g[spec_idx(line[0])]);
            }
        }
    }
}

/// Extending the range of lines by one adds the cells of that line when it
/// is completed, and nothing otherwise.
pub proof fn lemma_lines_win_set_extend(g: Seq<Owner>, from: int, to: int)
    requires
        0 <= from <= to < 8,
    ensures
        spec_lines_win_set(g, from, to + 1) == spec_lines_win_set(g, from, to).union(
            if spec_line_won(g, spec_lines()[to]) {
                spec_lines()[to].to_set()
            } else {
                Set::empty()
            },
        ),
{
    reveal(spec_lines_win_set);
    let extra = if spec_line_won(g, spec_lines()[to]) {
        spec_lines()[to].to_set()
    } else {
        Set::<Position>::empty()
    };
    assert forall|p: Position| spec_lines_win_set(g, from, to + 1).contains(p)
        implies spec_lines_win_set(g, from, to).union(extra).contains(p) by {
        let k = choose|k: int|
            from <= k < to + 1 && #[trigger] spec_line_won(g, spec_lines()[k])
                && spec_lines()[k].contains(p);
        if k < to {
            assert(spec_lines_win_set(g, from, to).contains(p));
        } else {
            assert(extra.contains(p));
        }
    }
    assert forall|p: Position| spec_lines_win_set(g, from, to).union(extra).contains(p)
        implies spec_lines_win_set(g, from, to + 1).contains(p) by {
        if spec_lines_win_set(g, from, to).contains(p) {
            let k = choose|k: int|
                from <= k < to && #[trigger] spec_line_won(g, spec_lines()[k])
                    && spec_lines()[k].contains(p);
            assert(from <= k < to + 1 && spec_line_won(g, spec_lines()[k])
                && spec_lines()[k].contains(p));
        } else {
            assert(from <= to < to + 1 && spec_line_won(g, spec_lines()[to])
                && spec_lines()[to].contains(p));
        }
    }
    assert(spec_lines_win_set(g, from, to + 1) =~= spec_lines_win_set(g, from, to).union(extra));
}

/// An empty range of lines has no winning positions.
pub proof fn lemma_lines_win_set_empty(g: Seq<Owner>, at: int)
    ensures
        spec_lines_win_set(g, at, at) == Set::<Position>::empty(),
{
    reveal(spec_lines_win_set);
    assert(spec_lines_win_set(g, at, at) =~= Set::<Position>::empty());
}

/// Adjacent ranges of lines contribute the union of their winning positions.
pub proof fn lemma_lines_win_set_split(g: Seq<Owner>, a: int, b: int, c: int)
    requires
        a <= b <= c,
    ensures
        spec_lines_win_set(g, a, c) == spec_lines_win_set(g, a, b).union(
            spec_lines_win_set(g, b, c),
        ),
{
    reveal(spec_lines_win_set);
    assert forall|p: Position| spec_lines_win_set(g, a, c).contains(p) implies spec_lines_win_set(
        g,
        a,
        b,
    ).union(spec_lines_win_set(g, b, c)).contains(p) by {
        let k = choose|k: int|
            a <= k < c && #[trigger] spec_line_won(g, spec_lines()[k]) && spec_lines()[k].contains(
                p,
            );
        if k < b {
            assert(spec_lines_win_set(g, a, b).contains(p));
        } else {
            assert(spec_lines_win_set(g, b, c).contains(p));
        }
    }
    assert(spec_lines_win_set(g, a, c) =~= spec_lines_win_set(g, a, b).union(
        spec_lines_win_set(g, b, c),
    ));
}

/// Every winning position lies on the board and carries a player's mark.
pub proof fn lemma_win_positions_cells(g: Seq<Owner>)
    ensures
        forall|p: Position|
            #[trigger] spec_win_positions(g).contains(p) ==> spec_in_grid(p) && g[spec_idx(p)]
                != Owner::Nobody,
{
    reveal(spec_lines_win_set);
    lemma_line_cells();
    assert forall|p: Position| #[trigger] spec_win_positions(g).contains(p) implies spec_in_grid(p)
        && g[spec_idx(p)] != Owner::Nobody by {
        let k = choose|k: int|
            0 <= k < 8 && #[trigger] spec_line_won(g, spec_lines()[k]) && spec_lines()[k].contains(
                p,
            );
        let line = spec_lines()[k];
        let j = choose|j: int| 0 <= j < line.len() && line[j] == p;
        assert(g[spec_idx(line[j])] == g[spec_idx(line[0])]) by {
            if j == 1 {
                assert(g[spec_idx(line[1])] == g[spec_idx(line[0])]);
            } else if j == 2 {
                assert(g[spec_idx(line[2])] == g[spec_idx(line[0])]);
            }
        }
    }
}

/// On a board without a completed line, marking one free square can only
/// complete lines through that square, so every winning position of the new
/// board carries the mover's mark.
pub proof fn lemma_new_wins_through_move(g: Seq<Owner>, i: int, mover: Owner)
    requires
        g.len() == 9,
        0 <= i < 9,
        g[i] == Owner::Nobody,
        mover != Owner::Nobody,
        spec_win_positions(g).is_empty(),
    ensures
        forall|p: Position|
            #[trigger] spec_win_positions(g.update(i, mover)).contains(p) ==> spec_in_grid(p)
                && g.update(i, mover)[spec_idx(p)] == mover,
{
    reveal(spec_lines_win_set);
    lemma_line_cells();
    lemma_idx_pos(i);
    let g2 = g.update(i, mover);
    assert forall|p: Position| #[trigger] spec_win_positions(g2).contains(p) implies spec_in_grid(
        p,
    ) && g2[spec_idx(p)] == mover by {
        let k = choose|k: int|
            0 <= k < 8 && #[trigger] spec_line_won(g2, spec_lines()[k])
                && spec_lines()[k].contains(p);
        let line = spec_lines()[k];
        if !line.contains(spec_pos(i)) {
            assert forall|j: int| 0 <= j < 3 implies spec_idx(#[trigger] line[j]) != i by {
                if spec_idx(line[j]) == i {
                    lemma_pos_idx(line[j]);
                    assert(line[j] == spec_pos(i));
                }
            }
            assert(g[spec_idx(line[0])] == g2[spec_idx(line[0])]);
            assert(g[spec_idx(line[1])] == g2[spec_idx(line[1])]);
            assert(g[spec_idx(line[2])] == g2[spec_idx(line[2])]);
            assert(spec_line_won(g, line));
            assert(spec_win_positions(g).contains(line[0]));
            assert(false);
        }
        let j0 = choose|j0: int| 0 <= j0 < line.len() && line[j0] == spec_pos(i);
        assert(g2[spec_idx(line[j0])] == mover);
        assert(g2[spec_idx(line[j0])] == g2[spec_idx(line[0])]) by {
            if j0 == 1 {
                assert(g2[spec_idx(line[1])] == g2[spec_idx(line[0])]);
            } else if j0 == 2 {
                assert(g2[spec_idx(line[2])] == g2[spec_idx(line[0])]);
            }
        }
        let jp = choose|jp: int| 0 <= jp < line.len() && line[jp] == p;
        assert(g2[spec_idx(line[jp])] == g2[spec_idx(line[0])]) by {
            if jp == 1 {
                assert(g2[spec_idx(line[1])] == g2[spec_idx(line[0])]);
            } else if jp == 2 {
                assert(g2[spec_idx(line[2])] == g2[spec_idx(line[0])]);
            }
        }
    }
}

/// Indicates the state of the game.
///
/// The positions carried by `PlayerXWin` and `PlayerOWin` are all the
/// positions that contributed to the victory, without repetition. Usually
/// they form one row, column or diagonal, but a single move can complete
/// several lines at once, in which case the positions of every completed
/// line are carried.
#[derive(Debug, PartialEq, Eq)]
pub enum State {
    /// Player X's turn to mark a free position.
    PlayerXMove,
    /// Player O's turn to mark a free position.
    PlayerOMove,
    /// Player X has won; the winning positions are carried.
    PlayerXWin(Vec<Position>),
    /// Player O has won; the winning positions are carried.
    PlayerOWin(Vec<Position>),
    /// The game ended in a draw: the board is full and nobody won.
    CatsGame,
}

impl State {
    /// Two states are the same when they agree on the variant and, for wins,
    /// on the sequence of winning positions.
    pub open spec fn deep_eq(self, other: State) -> bool {
        match (self, other) {
            (State::PlayerXMove, State::PlayerXMove) => true,
            (State::PlayerOMove, State::PlayerOMove) => true,
            (State::PlayerXWin(a), State::PlayerXWin(b)) => a@ == b@,
            (State::PlayerOWin(a), State::PlayerOWin(b)) => a@ == b@,
            (State::CatsGame, State::CatsGame) => true,
            _ => false,
        }
    }

    /// Whether the state is one of the three terminal states.
    pub open spec fn spec_is_game_over(self) -> bool {
        match self {
            State::PlayerXMove | State::PlayerOMove => false,
            State::PlayerXWin(_) | State::PlayerOWin(_) | State::CatsGame => true,
        }
    }

    /// Indicates if the state represents one of the game over states: a win
    /// for either player or a cat's game.
    pub fn is_game_over(&self) -> (r: bool)
        ensures
            r == self.spec_is_game_over(),
    {
        match self {
            State::PlayerXMove | State::PlayerOMove => false,
            State::PlayerXWin(_) | State::PlayerOWin(_) | State::CatsGame => true,
        }
    }
}

/// Copies a list of positions element by element.
fn clone_positions(v: &Vec<Position>) -> (r: Vec<Position>)
    ensures
        r@ == v@,
{
    let mut r: Vec<Position> = Vec::new();
    let mut i: usize = 0;
    while i < v.len()
        invariant
            i <= v@.len(),
            r@.len() == i,
            forall|j: int| 0 <= j < i ==> r@[j] == v@[j],
        decreases v@.len() - i,
    {
        r.push(v[i]);
        i = i + 1;
    }
    proof {
        assert(r@ =~= v@);
    }
    r
}

impl Clone for State {
    /// Copies the state, including the winning positions of a win.
    fn clone(&self) -> (r: Self)
        ensures
            r.deep_eq(*self),
    {
        match self {
            State::PlayerXMove => State::PlayerXMove,
            State::PlayerOMove => State::PlayerOMove,
            State::PlayerXWin(v) => State::PlayerXWin(clone_positions(v)),
            State::PlayerOWin(v) => State::PlayerOWin(clone_positions(v)),
            State::CatsGame => State::CatsGame,
        }
    }
}

/// The mark placed by the player whose turn it is; nobody's mark for a
/// finished game, which has no mover.
pub open spec fn spec_mover(s: State) -> Owner {
    match s {
        State::PlayerXMove => Owner::PlayerX,
        State::PlayerOMove => Owner::PlayerO,
        _ => Owner::Nobody,
    }
}

/// Appending an element that is not yet present keeps a sequence free of
/// duplicates.
pub proof fn lemma_push_keeps_no_duplicates(v: Seq<Position>, p: Position)
    requires
        v.no_duplicates(),
        !v.contains(p),
    ensures
        v.push(p).no_duplicates(),
{
    let w = v.push(p);
    assert forall|a: int, b: int| 0 <= a < w.len() && 0 <= b < w.len() && a != b implies w[a]
        != w[b] by {
        if a < v.len() && b < v.len() {
            assert(v[a] != v[b]);
        } else if a < v.len() && b == v.len() {
            assert(w[b] == p);
            if w[a] == p {
                assert(v.contains(p));
            }
        } else if b < v.len() && a == v.len() {
            assert(w[a] == p);
            if w[b] == p {
                assert(v.contains(p));
            }
        }
    }
}

/// Appending an element adds exactly that element to the set of elements.
pub proof fn lemma_push_to_set<T>(v: Seq<T>, p: T)
    ensures
        v.push(p).to_set() == v.to_set().insert(p),
{
    let w = v.push(p);
    assert forall|x: T| w.to_set().contains(x) implies v.to_set().insert(p).contains(x) by {
        let j = choose|j: int| 0 <= j < w.len() && w[j] == x;
        if j < v.len() {
            assert(v[j] == x);
            assert(v.contains(x));
        }
    }
    assert forall|x: T| v.to_set().insert(p).contains(x) implies w.to_set().contains(x) by {
        if v.contains(x) {
            let j = choose|j: int| 0 <= j < v.len() && v[j] == x;
            assert(w[j] == x);
        } else {
            assert(w[v.len() as int] == p);
        }
    }
    assert(w.to_set() =~= v.to_set().insert(p));
}

/// Whether a list of positions holds the given position.
fn contains_position(positions: &Vec<Position>, p: Position) -> (r: bool)
    ensures
        r == positions@.contains(p),
{
    let mut i: usize = 0;
    while i < positions.len()
        invariant
            i <= positions@.len(),
            forall|j: int| 0 <= j < i ==> positions@[j] != p,
        decreases positions@.len() - i,
    {
        if positions[i] == p {
            return true;
        }
        i = i + 1;
    }
    false
}

/// The state in which the other player is to move.
pub open spec fn spec_flip(s: State) -> State {
    match s {
        State::PlayerXMove => State::PlayerOMove,
        State::PlayerOMove => State::PlayerXMove,
        _ => s,
    }
}

/// The errors that a move can be rejected with.
///
/// All of them are ordinary recoverable values: the game state is never
/// changed by a rejected move.
#[derive(Debug, PartialEq, Eq, Structural)]
pub enum Error {
    /// A move was attempted after the game was over.
    GameOver,
    /// A move targeted a position that already has an owner; the position
    /// and its current owner are carried.
    PositionAlreadyOwned(Position, Owner),
    /// A move targeted a position outside the board; the position is carried.
    InvalidPosition(Position),
}

/// The decimal digit character for a value between zero and nine.
pub open spec fn spec_digit(d: int) -> char {
    if d == 0 {
        '0'
    } else if d == 1 {
        '1'
    } else if d == 2 {
        '2'
    } else if d == 3 {
        '3'
    } else if d == 4 {
        '4'
    } else if d == 5 {
        '5'
    } else if d == 6 {
        '6'
    } else if d == 7 {
        '7'
    } else if d == 8 {
        '8'
    } else {
        '9'
    }
}

/// The decimal digits of a positive value, most significant first; empty
/// at zero and below.
pub open spec fn spec_nat_text(n: int) -> Seq<char>
    decreases n,
    via spec_nat_text_decreases
{
    if n <= 0 {
        Seq::empty()
    } else {
        spec_nat_text(n / 10) + seq![spec_digit(n % 10)]
    }
}

#[via_fn]
proof fn spec_nat_text_decreases(n: int) {
    if n > 0 {
        vstd::arithmetic::div_mod::lemma_div_decreases(n, 10);
    }
}

/// The decimal rendering of an integer: its digits, with a leading minus
/// sign when it is negative.
pub open spec fn spec_int_text(n: int) -> Seq<char> {
    if n == 0 {
        seq!['0']
    } else if n < 0 {
        seq!['-'] + spec_nat_text(-n)
    } else {
        spec_nat_text(n)
    }
}

/// The rendering of a position, as its debug format prints it.
pub open spec fn spec_position_text(p: Position) -> Seq<char> {
    "Position { row: "@ + spec_int_text(p.row as int) + ", column: "@ + spec_int_text(
        p.column as int,
    ) + " }"@
}

/// The rendering of an owner, as its debug format prints it.
pub open spec fn spec_owner_text(o: Owner) -> Seq<char> {
    match o {
        Owner::PlayerX => "PlayerX"@,
        Owner::PlayerO => "PlayerO"@,
        Owner::Nobody => "Nobody"@,
    }
}

/// The diagnostic text of each error.
pub open spec fn spec_error_text(e: Error) -> Seq<char> {
    match e {
        Error::GameOver => "The game is over so no more moves can be performed. Use start_next_game() to start the next game."@,
        Error::PositionAlreadyOwned(p, o) => "The square at "@ + spec_position_text(p)
            + " is already owned by "@ + spec_owner_text(o)
            + ". Once a square is owned by a player it cannot be used by a different player. Use free_positions() to get available positions that can be used."@,
        Error::InvalidPosition(p) => "The position "@ + spec_position_text(p)
            + " is outside the area of the board. Please use a valid position contained by the board."@,
    }
}

/// The characters of stored digits, read back last to first.
spec fn spec_rev_digit_text(ds: Seq<u64>) -> Seq<char>
    decreases ds.len(),
{
    if ds.len() == 0 {
        Seq::empty()
    } else {
        spec_rev_digit_text(ds.skip(1)) + seq![spec_digit(ds[0] as int)]
    }
}

/// Appending a digit to the store prepends its character to the read-back.
proof fn lemma_rev_digit_text_push(ds: Seq<u64>, d: u64)
    ensures
        spec_rev_digit_text(ds.push(d)) == seq![spec_digit(d as int)] + spec_rev_digit_text(ds),
    decreases ds.len(),
{
    let w = ds.push(d);
    if ds.len() == 0 {
        assert(w.skip(1) =~= Seq::<u64>::empty());
        assert(spec_rev_digit_text(w) =~= seq![spec_digit(d as int)] + spec_rev_digit_text(ds));
    } else {
        assert(w.skip(1) =~= ds.skip(1).push(d));
        lemma_rev_digit_text_push(ds.skip(1), d);
        assert(w[0] == ds[0]);
        assert(spec_rev_digit_text(ds) == spec_rev_digit_text(ds.skip(1)) + seq![
            spec_digit(ds[0] as int),
        ]);
        assert(spec_rev_digit_text(w) == spec_rev_digit_text(w.skip(1)) + seq![
            spec_digit(w[0] as int),
        ]);
        assert(spec_rev_digit_text(w) =~= seq![spec_digit(d as int)] + spec_rev_digit_text(ds));
    }
}

/// The one-character text of a decimal digit.
fn digit_str(d: u64) -> (r: &'static str)
    requires
        d < 10,
    ensures
        r@ == seq![spec_digit(d as int)],
{
    if d == 0 {
        proof {
            reveal_strlit("0");
            assert("0"@ =~= seq![spec_digit(0)]);
        }
        "0"
    } else if d == 1 {
        proof {
            reveal_strlit("1");
            assert("1"@ =~= seq![spec_digit(1)]);
        }
        "1"
    } else if d == 2 {
        proof {
            reveal_strlit("2");
            assert("2"@ =~= seq![spec_digit(2)]);
        }
        "2"
    } else if d == 3 {
        proof {
            reveal_strlit("3");
            assert("3"@ =~= seq![spec_digit(3)]);
        }
        "3"
    } else if d == 4 {
        proof {
            reveal_strlit("4");
            assert("4"@ =~= seq![spec_digit(4)]);
        }
        "4"
    } else if d == 5 {
        proof {
            reveal_strlit("5");
            assert("5"@ =~= seq![spec_digit(5)]);
        }
        "5"
    } else if d == 6 {
        proof {
            reveal_strlit("6");
            assert("6"@ =~= seq![spec_digit(6)]);
        }
        "6"
    } else if d == 7 {
        proof {
            reveal_strlit("7");
            assert("7"@ =~= seq![spec_digit(7)]);
        }
        "7"
    } else if d == 8 {
        proof {
            reveal_strlit("8");
            assert("8"@ =~= seq![spec_digit(8)]);
        }
        "8"
    } else {
        proof {
            reveal_strlit("9");
            assert("9"@ =~= seq![spec_digit(9)]);
        }
        "9"
    }
}

/// Appends the decimal rendering of the value to the output.
fn append_int_text(out: &mut String, n: i32)
    ensures
        final(out)@ == old(out)@ + spec_int_text(n as int),
{
    if n == 0 {
        out.append("0");
        proof {
            reveal_strlit("0");
            assert(out@ =~= old(out)@ + spec_int_text(0));
        }
        return;
    }
    if n < 0 {
        out.append("-");
    }
    let ghost base = out@;
    let mut magnitude: u64 = if n >= 0 {
        n as u64
    } else {
        (-(n as i64)) as u64
    };
    let ghost m0 = magnitude as int;
    let mut digits: Vec<u64> = Vec::new();
    while magnitude > 0
        invariant
            0 <= m0,
            spec_nat_text(m0) == spec_nat_text(magnitude as int) + spec_rev_digit_text(digits@),
            forall|j: int| 0 <= j < digits@.len() ==> digits@[j] < 10,
        decreases magnitude,
    {
        let d: u64 = magnitude % 10;
        let ghost before = digits@;
        digits.push(d);
        proof {
            lemma_rev_digit_text_push(before, d);
            assert(spec_nat_text(magnitude as int) == spec_nat_text(magnitude as int / 10)
                + seq![spec_digit(magnitude as int % 10)]);
            assert(spec_nat_text(magnitude as int / 10) + spec_rev_digit_text(digits@)
                =~= spec_nat_text(magnitude as int) + spec_rev_digit_text(before));
            vstd::arithmetic::div_mod::lemma_div_decreases(magnitude as int, 10);
        }
        magnitude = magnitude / 10;
    }
    proof {
        assert(spec_nat_text(m0) =~= spec_rev_digit_text(digits@));
        assert(digits@.skip(digits@.len() as int) =~= Seq::<u64>::empty());
    }
    let mut i: usize = digits.len();
    while i > 0
        invariant
            i <= digits@.len(),
            forall|j: int| 0 <= j < digits@.len() ==> digits@[j] < 10,
            out@ == base + spec_rev_digit_text(digits@.skip(i as int)),
        decreases i,
    {
        let d = digits[i - 1];
        out.append(digit_str(d));
        proof {
            let k = i as int - 1;
            assert(digits@.skip(k).skip(1) =~= digits@.skip(k + 1));
            assert(digits@.skip(k)[0] == digits@[k]);
            assert(out@ =~= base + spec_rev_digit_text(digits@.skip(k)));
        }
        i = i - 1;
    }
    proof {
        assert(digits@.skip(0) =~= digits@);
        if n < 0 {
            reveal_strlit("-");
            assert(out@ =~= old(out)@ + spec_int_text(n as int));
        } else {
            assert(out@ =~= old(out)@ + spec_int_text(n as int));
        }
    }
}

/// Appends the rendering of a position to the output.
fn append_position_text(out: &mut String, position: Position)
    ensures
        final(out)@ == old(out)@ + spec_position_text(position),
{
    out.append("Position { row: ");
    append_int_text(out, position.row);
    out.append(", column: ");
    append_int_text(out, position.column);
    out.append(" }");
    proof {
        assert(out@ =~= old(out)@ + spec_position_text(position));
    }
}

/// Appends the rendering of an owner to the output.
fn append_owner_text(out: &mut String, owner: Owner)
    ensures
        final(out)@ == old(out)@ + spec_owner_text(owner),
{
    match owner {
        Owner::PlayerX => out.append("PlayerX"),
        Owner::PlayerO => out.append("PlayerO"),
        Owner::Nobody => out.append("Nobody"),
    }
}

impl Error {
    /// An English description of the error, aimed at application
    /// developers: exactly `spec_error_text`, which quotes the rejected
    /// position and, for an occupied square, its current owner.
    pub fn message(&self) -> (r: String)
        ensures
            r@ == spec_error_text(*self),
            r@.len() > 0,
    {
        match self {
            Error::GameOver => {
                let r = String::from_str(
                    "The game is over so no more moves can be performed. Use start_next_game() to start the next game.",
                );
                proof {
                    reveal_strlit(
                        "The game is over so no more moves can be performed. Use start_next_game() to start the next game.",
                    );
                }
                r
            },
            Error::PositionAlreadyOwned(position, owner) => {
                let mut r = String::new();
                r.append("The square at ");
                append_position_text(&mut r, *position);
                r.append(" is already owned by ");
                append_owner_text(&mut r, *owner);
                r.append(
                    ". Once a square is owned by a player it cannot be used by a different player. Use free_positions() to get available positions that can be used.",
                );
                proof {
                    reveal_strlit("The square at ");
                    assert(r@ =~= spec_error_text(*self));
                }
                r
            },
            Error::InvalidPosition(position) => {
                let mut r = String::new();
                r.append("The position ");
                append_position_text(&mut r, *position);
                r.append(
                    " is outside the area of the board. Please use a valid position contained by the board.",
                );
                proof {
                    reveal_strlit("The position ");
                    assert(r@ =~= spec_error_text(*self));
                }
                r
            },
        }
    }
}

/// Manages a Tic Tac Toe game: it owns the board, validates and applies
/// moves, detects the end of the game, and alternates which player starts
/// each successive round.
pub struct Game {
    board: Board,
    state: State,
    // The state to use when starting the next game.
    next_game_starting_state: State,
}

impl Game {
    /// The board of the game, as seen by specifications.
    pub closed spec fn spec_board(&self) -> Board {
        self.board
    }

    /// The current state, as seen by specifications.
    pub closed spec fn spec_state(&self) -> State {
        self.state
    }

    /// The state the next round will start in, as seen by specifications.
    pub closed spec fn spec_next_start(&self) -> State {
        self.next_game_starting_state
    }

    /// The nine squares of the board in row-major order.
    pub open spec fn grid(&self) -> Seq<Owner> {
        self.spec_board().grid()
    }

    /// The board is a well-formed 3x3 board.
    pub open spec fn board_ok(&self) -> bool {
        &&& self.spec_board().wf()
        &&& self.spec_board().spec_size() == spec_board_size()
    }

    /// A game is well formed when its board is a 3x3 board, a game that is
    /// still in progress has no completed line and at least one free square,
    /// and the recorded starting state for the next round is always one of
    /// the two move states.
    pub open spec fn wf(&self) -> bool {
        &&& self.board_ok()
        &&& !self.spec_state().spec_is_game_over() ==> spec_win_positions(self.grid()).is_empty()
        &&& !self.spec_state().spec_is_game_over() ==> spec_free_count(self.grid()) > 0
        &&& (self.spec_next_start() is PlayerXMove || self.spec_next_start() is PlayerOMove)
    }

    /// The free positions a caller may move to: none when the game is over,
    /// otherwise every unowned square in row-major order.
    pub open spec fn spec_free_list(&self) -> Seq<Position> {
        if self.spec_state().spec_is_game_over() {
            Seq::empty()
        } else {
            spec_free_seq(self.grid())
        }
    }

    /// Whether a move at this position would be accepted: the game is not
    /// over, the position is on the board, and its square is free.
    pub open spec fn spec_can_move(&self, position: Position) -> bool {
        &&& !self.spec_state().spec_is_game_over()
        &&& spec_in_grid(position)
        &&& self.grid()[spec_idx(position)] == Owner::Nobody
    }

    /// Creates a new game: an empty 3x3 board with player X to move.
    ///
    /// Use `start_next_game()` for consecutive games so that the players
    /// alternate who goes first.
    pub fn new() -> (r: Game)
        ensures
            r.wf(),
            r.spec_state() == State::PlayerXMove,
            r.spec_next_start() == State::PlayerOMove,
            r.grid().len() == 9,
            forall|i: int| 0 <= i < 9 ==> r.grid()[i] == Owner::Nobody,
    {
        let board = Board::new(Size { rows: 3, columns: 3 });
        let state = State::PlayerXMove;
        let next_game_starting_state = Self::next_players_turn(&state);
        let r = Game { board, state, next_game_starting_state };
        proof {
            lemma_all_free_no_wins(r.grid());
            lemma_free_prefix_all_free(r.grid(), 9);
        }
        r
    }

    /// Gets the board associated with the game, for display or inspection.
    pub fn board(&self) -> (r: &Board)
        ensures
            *r == self.spec_board(),
    {
        &self.board
    }

    /// Gets the current state of the game.
    pub fn state(&self) -> (r: State)
        ensures
            r.deep_eq(self.spec_state()),
            r.spec_is_game_over() == self.spec_state().spec_is_game_over(),
    {
        self.state.clone()
    }

    /// The unowned squares of the board in row-major order, ignoring whether
    /// the game is over.
    pub(crate) fn free_position_list(&self) -> (r: Vec<Position>)
        requires
            self.board_ok(),
        ensures
            r@ == spec_free_seq(self.grid()),
    {
        let mut positions: Vec<Position> = Vec::new();
        let mut row: i32 = 0;
        while row < 3
            invariant
                self.board_ok(),
                0 <= row <= 3,
                positions@ == spec_free_prefix(self.grid(), 3 * row),
            decreases 3 - row,
        {
            let mut column: i32 = 0;
            while column < 3
                invariant
                    self.board_ok(),
                    0 <= row < 3,
                    0 <= column <= 3,
                    positions@ == spec_free_prefix(self.grid(), 3 * row + column),
                decreases 3 - column,
            {
                let position = Position { row, column };
                let ghost n = 3 * row + column;
                proof {
                    lemma_pos_idx(position);
                    assert(spec_idx(position) == n);
                    assert(self.spec_board().spec_index_of(position) == n);
                }
                let owner = match self.board.get(position) {
                    Some(o) => o,
                    None => Owner::Nobody,
                };
                if owner == Owner::Nobody {
                    positions.push(position);
                }
                proof {
                    assert(spec_free_prefix(self.grid(), n + 1) == spec_free_prefix(self.grid(), n)
                        + if self.grid()[n] == Owner::Nobody {
                        seq![spec_pos(n)]
                    } else {
                        Seq::<Position>::empty()
                    });
                    if self.grid()[n] == Owner::Nobody {
                        assert(spec_pos(n) == position);
                        assert(positions@ =~= spec_free_prefix(self.grid(), n + 1));
                    } else {
                        assert(positions@ =~= spec_free_prefix(self.grid(), n + 1));
                    }
                }
                column = column + 1;
            }
            row = row + 1;
        }
        positions
    }

    /// Gets an iterator over the free positions: those with no owner, which
    /// can be provided to `do_move()`. There are no free positions once the
    /// game is over.
    pub fn free_positions(&self) -> (r: FreePositions)
        requires
            self.wf(),
        ensures
            r.wf(),
            r.remaining() == self.spec_free_list(),
    {
        if self.state.is_game_over() {
            FreePositions { positions: Vec::new(), index: 0 }
        } else {
            FreePositions { positions: self.free_position_list(), index: 0 }
        }
    }

    /// Indicates if the square at the indicated position can be marked as
    /// owned: exactly when `do_move()` at this position would succeed.
    pub fn can_move(&self, position: Position) -> (r: bool)
        requires
            self.wf(),
        ensures
            r == self.spec_can_move(position),
    {
        if self.state.is_game_over() || !self.board.contains(position) {
            false
        } else {
            proof {
                lemma_pos_idx(position);
            }
            match self.board.get(position) {
                Some(owner) => owner == Owner::Nobody,
                None => false,
            }
        }
    }

    /// The state in which the other player is to move.
    ///
    /// Only meaningful while the game is in progress, which the caller must
    /// guarantee; a finished game has no next turn.
    fn next_players_turn(current_state: &State) -> (r: State)
        requires
            !current_state.spec_is_game_over(),
        ensures
            r == spec_flip(*current_state),
    {
        match current_state {
            State::PlayerXMove => State::PlayerOMove,
            State::PlayerOMove => State::PlayerXMove,
            _ => {
                proof {
                    assert(false);
                }
                State::PlayerXMove
            },
        }
    }

    /// Marks the indicated square as owned by the player whose turn it is.
    ///
    /// On success the state of the game is recomputed and returned. A move
    /// is rejected, leaving board and state untouched, when the game is over,
    /// when the position lies outside the board, or when the square already
    /// has an owner; the error says which.
    pub fn do_move(&mut self, position: Position) -> (r: Result<State, Error>)
        requires
            old(self).wf(),
        ensures
            final(self).wf(),
            r is Ok <==> old(self).spec_can_move(position),
            !old(self).spec_can_move(position) ==> *final(self) == *old(self),
            old(self).spec_state().spec_is_game_over() ==> r == Err::<State, Error>(
                Error::GameOver,
            ),
            !old(self).spec_state().spec_is_game_over() && !spec_in_grid(position) ==> r == Err::<
                State,
                Error,
            >(Error::InvalidPosition(position)),
            !old(self).spec_state().spec_is_game_over() && spec_in_grid(position) && old(
                self,
            ).grid()[spec_idx(position)] != Owner::Nobody ==> r == Err::<State, Error>(
                Error::PositionAlreadyOwned(position, old(self).grid()[spec_idx(position)]),
            ),
            old(self).spec_can_move(position) ==> ({
                let mover = spec_mover(old(self).spec_state());
                let g2 = old(self).grid().update(spec_idx(position), mover);
                &&& final(self).grid() == g2
                &&& final(self).spec_next_start() == old(self).spec_next_start()
                &&& (r matches Ok(s) && s.deep_eq(final(self).spec_state()))
                &&& (spec_win_positions(g2).is_empty() && spec_free_count(g2) > 0
                    ==> final(self).spec_state() == spec_flip(old(self).spec_state()))
                &&& (spec_win_positions(g2).is_empty() && spec_free_count(g2) == 0
                    ==> final(self).spec_state() == State::CatsGame)
                &&& (!spec_win_positions(g2).is_empty() ==> (match final(self).spec_state() {
                    State::PlayerXWin(v) => mover == Owner::PlayerX && v@.to_set()
                        == spec_win_positions(g2) && v@.no_duplicates(),
                    State::PlayerOWin(v) => mover == Owner::PlayerO && v@.to_set()
                        == spec_win_positions(g2) && v@.no_duplicates(),
                    _ => false,
                }))
            }),
    {
        let new_owner = match &self.state {
            State::PlayerXMove => Owner::PlayerX,
            State::PlayerOMove => Owner::PlayerO,
            _ => {
                return Err(Error::GameOver);
            },
        };
        let existing_owner = match self.board.get(position) {
            Some(owner) => owner,
            None => {
                return Err(Error::InvalidPosition(position));
            },
        };
        proof {
            lemma_pos_idx(position);
        }
        if existing_owner != Owner::Nobody {
            return Err(Error::PositionAlreadyOwned(position, existing_owner));
        }
        let _previous = self.board.get_mut(position, new_owner);
        proof {
            lemma_new_wins_through_move(old(self).grid(), spec_idx(position), new_owner);
            lemma_free_prefix_update(old(self).grid(), spec_idx(position), new_owner, 9);
        }
        self.state = self.calculate_next_state();
        proof {
            let g2 = self.grid();
            if !spec_win_positions(g2).is_empty() {
                match self.spec_state() {
                    State::PlayerXWin(v) => {
                        assert(spec_win_positions(g2).contains(v@[0]));
                    },
                    State::PlayerOWin(v) => {
                        assert(spec_win_positions(g2).contains(v@[0]));
                    },
                    _ => {},
                }
            }
        }
        Ok(self.state())
    }

    /// Starts the next round: the board is replaced with a fresh empty one,
    /// the player who went second last round goes first, and the round after
    /// that is recorded to start with the other player again.
    pub fn start_next_game(&mut self) -> (r: State)
        requires
            old(self).wf(),
        ensures
            final(self).wf(),
            forall|i: int| 0 <= i < 9 ==> final(self).grid()[i] == Owner::Nobody,
            final(self).spec_state() == old(self).spec_next_start(),
            final(self).spec_next_start() == spec_flip(old(self).spec_next_start()),
            r == final(self).spec_state(),
            !r.spec_is_game_over(),
    {
        self.board = Board::new(Size { rows: 3, columns: 3 });
        self.state = self.next_game_starting_state.clone();
        proof {
            match old(self).spec_next_start() {
                State::PlayerXMove => {},
                State::PlayerOMove => {},
                _ => {
                    assert(false);
                },
            }
        }
        self.next_game_starting_state = Self::next_players_turn(&self.state);
        proof {
            lemma_all_free_no_wins(self.grid());
            lemma_free_prefix_all_free(self.grid(), 9);
        }
        self.state()
    }

    /// Recomputes the state of the game from the board: a win when some line
    /// is completed, a cat's game when the board is full, and otherwise the
    /// other player's turn.
    ///
    /// Used after every accepted move, while the stored state still names
    /// the player who just moved.
    fn calculate_next_state(&self) -> (r: State)
        requires
            self.board_ok(),
            !self.spec_state().spec_is_game_over(),
        ensures
            spec_win_positions(self.grid()).is_empty() && spec_free_count(self.grid()) > 0 ==> r
                == spec_flip(self.spec_state()),
            spec_win_positions(self.grid()).is_empty() && spec_free_count(self.grid()) == 0 ==> r
                == State::CatsGame,
            !spec_win_positions(self.grid()).is_empty() ==> (match r {
                State::PlayerXWin(v) => v@.to_set() == spec_win_positions(self.grid())
                    && v@.no_duplicates() && v@.len() > 0 && self.grid()[spec_idx(v@[0])]
                    == Owner::PlayerX,
                State::PlayerOWin(v) => v@.to_set() == spec_win_positions(self.grid())
                    && v@.no_duplicates() && v@.len() > 0 && self.grid()[spec_idx(v@[0])]
                    == Owner::PlayerO,
                _ => false,
            }),
    {
        let winning_positions = self.find_winning_positions();
        proof {
            if winning_positions@.len() == 0 {
                assert(winning_positions@.to_set() =~= Set::<Position>::empty());
            }
            lemma_win_positions_cells(self.grid());
        }
        if winning_positions.len() > 0 {
            proof {
                assert forall|j: int| 0 <= j < winning_positions@.len() implies spec_in_grid(
                    #[trigger] winning_positions@[j],
                ) by {
                    assert(winning_positions@.contains(winning_positions@[j]));
                    assert(winning_positions@.to_set().contains(winning_positions@[j]));
                }
                assert(winning_positions@.contains(winning_positions@[0]));
                assert(winning_positions@.to_set().contains(winning_positions@[0]));
            }
            self.get_winning_player(winning_positions)
        } else if !self.has_free_square() {
            State::CatsGame
        } else {
            Self::next_players_turn(&self.state)
        }
    }

    /// Whether any square of the board is still free.
    fn has_free_square(&self) -> (r: bool)
        requires
            self.board_ok(),
        ensures
            r == (spec_free_count(self.grid()) > 0),
    {
        let free = self.free_position_list();
        free.len() > 0
    }

    /// Finds every position that satisfies a victory condition, without
    /// repetition. The list is empty when no line is completed.
    fn find_winning_positions(&self) -> (r: Vec<Position>)
        requires
            self.board_ok(),
        ensures
            r@.no_duplicates(),
            r@.to_set() == spec_win_positions(self.grid()),
    {
        let mut winning_positions: Vec<Position> = Vec::new();
        self.check_rows(&mut winning_positions);
        self.check_columns(&mut winning_positions);
        self.check_top_left_to_bottom_right(&mut winning_positions);
        self.check_top_right_to_bottom_left(&mut winning_positions);
        proof {
            let g = self.grid();
            lemma_lines_win_set_split(g, 0, 3, 6);
            lemma_lines_win_set_split(g, 0, 6, 7);
            lemma_lines_win_set_split(g, 0, 7, 8);
            assert(winning_positions@.to_set() =~= spec_win_positions(g));
        }
        winning_positions
    }

    /// Walks each row looking for a win.
    fn check_rows(&self, winning_positions: &mut Vec<Position>)
        requires
            self.board_ok(),
            old(winning_positions)@.no_duplicates(),
        ensures
            final(winning_positions)@.no_duplicates(),
            final(winning_positions)@.to_set() == old(winning_positions)@.to_set().union(
                spec_lines_win_set(self.grid(), 0, 3),
            ),
    {
        proof {
            lemma_lines_win_set_empty(self.grid(), 0);
            assert(winning_positions@.to_set() =~= old(winning_positions)@.to_set().union(
                spec_lines_win_set(self.grid(), 0, 0),
            ));
        }
        let mut row: i32 = 0;
        while row < 3
            invariant
                self.board_ok(),
                0 <= row <= 3,
                winning_positions@.no_duplicates(),
                winning_positions@.to_set() == old(winning_positions)@.to_set().union(
                    spec_lines_win_set(self.grid(), 0, row as int),
                ),
            decreases 3 - row,
        {
            let starting_position = Position { row, column: 0 };
            let ghost line = spec_lines()[row as int];
            proof {
                lemma_line_cells();
                if row == 0 {
                    assert(line[0] == spec_pos(0) && line[1] == spec_pos(1) && line[2] == spec_pos(
                        2,
                    ));
                } else if row == 1 {
                    assert(line[0] == spec_pos(3) && line[1] == spec_pos(4) && line[2] == spec_pos(
                        5,
                    ));
                } else {
                    assert(line[0] == spec_pos(6) && line[1] == spec_pos(7) && line[2] == spec_pos(
                        8,
                    ));
                }
            }
            self.check_sequence(winning_positions, starting_position, 0, 1, Ghost(line));
            proof {
                lemma_ray_won_is_line_won(self.grid(), row as int);
                lemma_lines_win_set_extend(self.grid(), 0, row as int);
                assert(winning_positions@.to_set() =~= old(winning_positions)@.to_set().union(
                    spec_lines_win_set(self.grid(), 0, row + 1),
                ));
            }
            row = row + 1;
        }
    }

    /// Walks each column looking for a win.
    fn check_columns(&self, winning_positions: &mut Vec<Position>)
        requires
            self.board_ok(),
            old(winning_positions)@.no_duplicates(),
        ensures
            final(winning_positions)@.no_duplicates(),
            final(winning_positions)@.to_set() == old(winning_positions)@.to_set().union(
                spec_lines_win_set(self.grid(), 3, 6),
            ),
    {
        proof {
            lemma_lines_win_set_empty(self.grid(), 3);
            assert(winning_positions@.to_set() =~= old(winning_positions)@.to_set().union(
                spec_lines_win_set(self.grid(), 3, 3),
            ));
        }
        let mut column: i32 = 0;
        while column < 3
            invariant
                self.board_ok(),
                0 <= column <= 3,
                winning_positions@.no_duplicates(),
                winning_positions@.to_set() == old(winning_positions)@.to_set().union(
                    spec_lines_win_set(self.grid(), 3, 3 + column as int),
                ),
            decreases 3 - column,
        {
            let starting_position = Position { row: 0, column };
            let ghost line = spec_lines()[3 + column as int];
            proof {
                lemma_line_cells();
                if column == 0 {
                    assert(line[0] == spec_pos(0) && line[1] == spec_pos(3) && line[2] == spec_pos(
                        6,
                    ));
                } else if column == 1 {
                    assert(line[0] == spec_pos(1) && line[1] == spec_pos(4) && line[2] == spec_pos(
                        7,
                    ));
                } else {
                    assert(line[0] == spec_pos(2) && line[1] == spec_pos(5) && line[2] == spec_pos(
                        8,
                    ));
                }
            }
            self.check_sequence(winning_positions, starting_position, 1, 0, Ghost(line));
            proof {
                lemma_ray_won_is_line_won(self.grid(), 3 + column as int);
                lemma_lines_win_set_extend(self.grid(), 3, 3 + column as int);
                assert(winning_positions@.to_set() =~= old(winning_positions)@.to_set().union(
                    spec_lines_win_set(self.grid(), 3, 3 + (column + 1)),
                ));
            }
            column = column + 1;
        }
    }

    /// Walks the diagonal from the top left to the bottom right corner.
    fn check_top_left_to_bottom_right(&self, winning_positions: &mut Vec<Position>)
        requires
            self.board_ok(),
            old(winning_positions)@.no_duplicates(),
        ensures
            final(winning_positions)@.no_duplicates(),
            final(winning_positions)@.to_set() == old(winning_positions)@.to_set().union(
                spec_lines_win_set(self.grid(), 6, 7),
            ),
    {
        let starting_position = Position { row: 0, column: 0 };
        let ghost line = spec_lines()[6];
        proof {
            lemma_line_cells();
            assert(line[0] == spec_pos(0) && line[1] == spec_pos(4) && line[2] == spec_pos(8));
        }
        self.check_sequence(winning_positions, starting_position, 1, 1, Ghost(line));
        proof {
            lemma_ray_won_is_line_won(self.grid(), 6);
            lemma_lines_win_set_empty(self.grid(), 6);
            lemma_lines_win_set_extend(self.grid(), 6, 6);
            assert(winning_positions@.to_set() =~= old(winning_positions)@.to_set().union(
                spec_lines_win_set(self.grid(), 6, 7),
            ));
        }
    }

    /// Walks the diagonal from the top right to the bottom left corner.
    fn check_top_right_to_bottom_left(&self, winning_positions: &mut Vec<Position>)
        requires
            self.board_ok(),
            old(winning_positions)@.no_duplicates(),
        ensures
            final(winning_positions)@.no_duplicates(),
            final(winning_positions)@.to_set() == old(winning_positions)@.to_set().union(
                spec_lines_win_set(self.grid(), 7, 8),
            ),
    {
        let starting_position = Position { row: 0, column: 2 };
        let ghost line = spec_lines()[7];
        proof {
            lemma_line_cells();
            assert(line[0] == spec_pos(2) && line[1] == spec_pos(4) && line[2] == spec_pos(6));
        }
        self.check_sequence(winning_positions, starting_position, 1, -1, Ghost(line));
        proof {
            lemma_ray_won_is_line_won(self.grid(), 7);
            lemma_lines_win_set_empty(self.grid(), 7);
            lemma_lines_win_set_extend(self.grid(), 7, 7);
            assert(winning_positions@.to_set() =~= old(winning_positions)@.to_set().union(
                spec_lines_win_set(self.grid(), 7, 8),
            ));
        }
    }

    /// Walks a sequence of squares starting at `starting_position` and
    /// stepping by `(row_step, column_step)` until the walk leaves the
    /// board. When every square of the walk carries the same player's mark,
    /// the walked positions are added to the winning positions.
    ///
    /// The ghost `cells` names the positions the walk visits.
    fn check_sequence(
        &self,
        winning_positions: &mut Vec<Position>,
        starting_position: Position,
        row_step: i32,
        column_step: i32,
        cells: Ghost<Seq<Position>>,
    )
        requires
            self.board_ok(),
            old(winning_positions)@.no_duplicates(),
            0 <= row_step <= 1,
            -1 <= column_step <= 1,
            cells@.len() >= 1,
            cells@[0] == starting_position,
            forall|j: int| 0 <= j < cells@.len() ==> spec_in_grid(#[trigger] cells@[j]),
            forall|j: int|
                1 <= j < cells@.len() ==> (#[trigger] cells@[j]).row == cells@[j - 1].row + row_step
                    && cells@[j].column == cells@[j - 1].column + column_step,
            !(0 <= cells@.last().row + row_step < 3 && 0 <= cells@.last().column + column_step
                < 3),
        ensures
            final(winning_positions)@.no_duplicates(),
            spec_ray_won(self.grid(), cells@) ==> final(winning_positions)@.to_set() == old(
                winning_positions,
            )@.to_set().union(cells@.to_set()),
            !spec_ray_won(self.grid(), cells@) ==> final(winning_positions)@ == old(
                winning_positions,
            )@,
    {
        proof {
            lemma_pos_idx(starting_position);
        }
        let initial_owner = match self.board.get(starting_position) {
            Some(owner) => owner,
            None => Owner::Nobody,
        };
        if initial_owner == Owner::Nobody {
            return;
        }
        let mut ray: Vec<Position> = Vec::new();
        ray.push(starting_position);
        let mut next = Position {
            row: starting_position.row + row_step,
            column: starting_position.column + column_step,
        };
        while self.board.contains(next)
            invariant
                self.board_ok(),
                0 <= row_step <= 1,
                -1 <= column_step <= 1,
                cells@.len() >= 1,
                forall|j: int| 0 <= j < cells@.len() ==> spec_in_grid(#[trigger] cells@[j]),
                forall|j: int|
                    1 <= j < cells@.len() ==> (#[trigger] cells@[j]).row == cells@[j - 1].row
                        + row_step && cells@[j].column == cells@[j - 1].column + column_step,
                !(0 <= cells@.last().row + row_step < 3 && 0 <= cells@.last().column + column_step
                    < 3),
                1 <= ray@.len() <= cells@.len(),
                ray@ == cells@.take(ray@.len() as int),
                initial_owner == self.grid()[spec_idx(cells@[0])],
                initial_owner != Owner::Nobody,
                forall|t: int|
                    0 <= t < ray@.len() ==> self.grid()[spec_idx(#[trigger] cells@[t])]
                        == initial_owner,
                next.row == cells@[ray@.len() - 1].row + row_step,
                next.column == cells@[ray@.len() - 1].column + column_step,
                winning_positions@ == old(winning_positions)@,
                old(winning_positions)@.no_duplicates(),
            decreases cells@.len() - ray@.len(),
        {
            proof {
                if ray@.len() == cells@.len() {
                    assert(cells@.last() == cells@[ray@.len() - 1]);
                    assert(false);
                }
                assert(next == cells@[ray@.len() as int]);
                lemma_pos_idx(next);
            }
            let owner = match self.board.get(next) {
                Some(owner) => owner,
                None => Owner::Nobody,
            };
            if owner != initial_owner {
                proof {
                    assert(!spec_ray_won(self.grid(), cells@));
                }
                return;
            }
            let ghost prev_len = ray@.len() as int;
            ray.push(next);
            proof {
                assert(ray@ =~= cells@.take(prev_len + 1));
            }
            next = Position { row: next.row + row_step, column: next.column + column_step };
        }
        proof {
            if ray@.len() < cells@.len() {
                assert(next == cells@[ray@.len() as int]);
                assert(false);
            }
            assert(ray@ =~= cells@);
            assert(spec_ray_won(self.grid(), cells@));
        }
        let ghost pre_insert = winning_positions@;
        let mut i: usize = 0;
        while i < ray.len()
            invariant
                ray@ == cells@,
                i <= ray@.len(),
                winning_positions@.no_duplicates(),
                winning_positions@.to_set() == pre_insert.to_set().union(
                    ray@.take(i as int).to_set(),
                ),
            decreases ray@.len() - i,
        {
            let p = ray[i];
            proof {
                assert(ray@.take(i + 1) =~= ray@.take(i as int).push(p));
                lemma_push_to_set(ray@.take(i as int), p);
            }
            if !contains_position(winning_positions, p) {
                let ghost before = winning_positions@;
                winning_positions.push(p);
                proof {
                    lemma_push_keeps_no_duplicates(before, p);
                    lemma_push_to_set(before, p);
                    assert(winning_positions@.to_set() =~= pre_insert.to_set().union(
                        ray@.take(i + 1).to_set(),
                    ));
                }
            } else {
                proof {
                    assert(winning_positions@.to_set().contains(p));
                    assert(winning_positions@.to_set() =~= pre_insert.to_set().union(
                        ray@.take(i + 1).to_set(),
                    ));
                }
            }
            i = i + 1;
        }
        proof {
            assert(ray@.take(ray@.len() as int) =~= ray@);
            assert(winning_positions@.to_set() == pre_insert.to_set().union(cells@.to_set()));
        }
    }

    /// Builds the winning state for the player who owns the first of the
    /// winning positions.
    ///
    /// The winning positions must be non-empty board positions; the win is
    /// credited to the owner of the first one, which under the game's
    /// invariants owns all of them.
    fn get_winning_player(&self, winning_positions: Vec<Position>) -> (r: State)
        requires
            self.board_ok(),
            winning_positions@.len() > 0,
            forall|j: int|
                0 <= j < winning_positions@.len() ==> spec_in_grid(
                    #[trigger] winning_positions@[j],
                ),
            self.grid()[spec_idx(winning_positions@[0])] != Owner::Nobody,
        ensures
            self.grid()[spec_idx(winning_positions@[0])] == Owner::PlayerX ==> r
                == State::PlayerXWin(winning_positions),
            self.grid()[spec_idx(winning_positions@[0])] == Owner::PlayerO ==> r
                == State::PlayerOWin(winning_positions),
    {
        let first = winning_positions[0];
        proof {
            lemma_pos_idx(first);
        }
        let winning_owner = match self.board.get(first) {
            Some(owner) => owner,
            None => Owner::Nobody,
        };
        match winning_owner {
            Owner::PlayerX => State::PlayerXWin(winning_positions),
            Owner::PlayerO => State::PlayerOWin(winning_positions),
            Owner::Nobody => {
                proof {
                    assert(false);
                }
                State::CatsGame
            },
        }
    }
}

impl Default for Game {
    /// Provides a default game: the same as a new game.
    fn default() -> (r: Self)
        ensures
            r.wf(),
            r.spec_state() == State::PlayerXMove,
            r.spec_next_start() == State::PlayerOMove,
            forall|i: int| 0 <= i < 9 ==> r.grid()[i] == Owner::Nobody,
    {
        Self::new()
    }
}

impl Clone for Game {
    /// Deep-copies the game: the board, the state and the recorded starting
    /// state of the next round.
    fn clone(&self) -> (r: Self)
        ensures
            r.spec_board().spec_size() == self.spec_board().spec_size(),
            r.grid() == self.grid(),
            r.spec_state().deep_eq(self.spec_state()),
            r.spec_next_start().deep_eq(self.spec_next_start()),
            self.wf() ==> r.wf(),
    {
        Game {
            board: self.board.clone(),
            state: self.state.clone(),
            next_game_starting_state: self.next_game_starting_state.clone(),
        }
    }
}

/// A game state is always well defined and singular: it is exactly one of
/// still in progress, won by exactly one player, or a cat's game. In
/// particular this holds of the state stored and returned by every
/// successful `do_move`.
pub proof fn lemma_state_singular(s: State)
    ensures
        !s.spec_is_game_over() || (s is PlayerXWin || s is PlayerOWin) || s is CatsGame,
        !(!s.spec_is_game_over() && (s is PlayerXWin || s is PlayerOWin)),
        !(!s.spec_is_game_over() && s is CatsGame),
        !((s is PlayerXWin || s is PlayerOWin) && s is CatsGame),
        !(s is PlayerXWin && s is PlayerOWin),
{
}

/// Consecutive rounds alternate who moves first and never start in a
/// terminal state: by `start_next_game`'s contract, the first of two calls
/// starts the round in `spec_next_start()` and leaves its flip recorded, so
/// the second call starts the round in the flip — a different, non-terminal
/// move state.
pub proof fn lemma_starting_states_alternate(g: Game)
    requires
        g.wf(),
    ensures
        spec_flip(g.spec_next_start()) != g.spec_next_start(),
        !g.spec_next_start().spec_is_game_over(),
        !spec_flip(g.spec_next_start()).spec_is_game_over(),
{
}

/// An iterator over the free positions of a `Game`: those without an owner.
pub struct FreePositions {
    positions: Vec<Position>,
    index: usize,
}

impl FreePositions {
    /// The positions not yet yielded.
    pub closed spec fn remaining(&self) -> Seq<Position> {
        self.positions@.skip(self.index as int)
    }

    /// The iterator never points past its positions.
    pub closed spec fn wf(&self) -> bool {
        self.index <= self.positions@.len()
    }

    /// Yields the next free position, or nothing when they are exhausted.
    pub fn next(&mut self) -> (r: Option<Position>)
        requires
            old(self).wf(),
        ensures
            final(self).wf(),
            old(self).remaining().len() == 0 ==> r is None && final(self).remaining() == old(
                self,
            ).remaining(),
            old(self).remaining().len() > 0 ==> r == Some(old(self).remaining()[0])
                && final(self).remaining() == old(self).remaining().skip(1),
    {
        if self.index < self.positions.len() {
            let position = self.positions[self.index];
            self.index = self.index + 1;
            Some(position)
        } else {
            None
        }
    }
}

} // verus!
