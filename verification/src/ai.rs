//! The computer opponent: exhaustive game-tree search with configurable
//! difficulty, classifying every legal move as a win, loss, cat's game or
//! unknown outcome for the searching player.

use vstd::prelude::*;
use rand::Rng;
use rand::seq::SliceRandom;

use crate::board::Owner;
use crate::game;
use crate::game::Position;

verus! {

/// The player a computer opponent plays as, X or O.
#[derive(Debug, Copy, Clone, PartialEq, Eq, Hash, Structural)]
pub enum AIPlayer {
    /// The opponent places X marks.
    PlayerX,
    /// The opponent places O marks.
    PlayerO,
}

/// The player whose turn it is in a non-terminal state.
pub open spec fn spec_turn_player(s: game::State) -> AIPlayer {
    match s {
        game::State::PlayerXMove => AIPlayer::PlayerX,
        game::State::PlayerOMove => AIPlayer::PlayerO,
        _ => AIPlayer::PlayerX,
    }
}

/// The mark a player places.
pub open spec fn spec_owner_of(p: AIPlayer) -> Owner {
    match p {
        AIPlayer::PlayerX => Owner::PlayerX,
        AIPlayer::PlayerO => Owner::PlayerO,
    }
}

/// The other player.
pub open spec fn spec_other(p: AIPlayer) -> AIPlayer {
    match p {
        AIPlayer::PlayerX => AIPlayer::PlayerO,
        AIPlayer::PlayerO => AIPlayer::PlayerX,
    }
}

impl AIPlayer {
    /// Determines which player the computer opponent is playing as from the
    /// current state of the game.
    ///
    /// Only meaningful while the game is in progress: a finished game has no
    /// player to move.
    pub fn from_game_state(state: game::State) -> (r: Self)
        requires
            !state.spec_is_game_over(),
        ensures
            r == spec_turn_player(state),
    {
        match state {
            game::State::PlayerXMove => AIPlayer::PlayerX,
            game::State::PlayerOMove => AIPlayer::PlayerO,
            _ => {
                proof {
                    assert(false);
                }
                AIPlayer::PlayerX
            },
        }
    }
}

/// A game outcome from the computer opponent's perspective.
#[derive(Debug, Copy, Clone, PartialEq, Eq, Hash, Structural)]
pub enum Outcome {
    /// The opponent wins the game.
    Win,
    /// The opponent loses the game.
    Loss,
    /// The game ends in a cat's game.
    CatsGame,
    /// The outcome is unknown to the opponent, because the search declined
    /// to evaluate this part of the game tree.
    Unknown,
}

/// The outcome a terminal state carries for a player: a win for the
/// player's own mark is a win, a win for the other mark is a loss, and a
/// full board without a winner is a cat's game.
pub open spec fn spec_outcome_from(s: game::State, ai: AIPlayer) -> Outcome {
    match s {
        game::State::CatsGame => Outcome::CatsGame,
        game::State::PlayerXWin(_) => if ai is PlayerX {
            Outcome::Win
        } else {
            Outcome::Loss
        },
        game::State::PlayerOWin(_) => if ai is PlayerO {
            Outcome::Win
        } else {
            Outcome::Loss
        },
        _ => Outcome::Unknown,
    }
}

impl Outcome {
    /// Maps a terminal game state to the outcome for the given player.
    ///
    /// Only meaningful for a finished game: an unfinished game has no
    /// outcome yet.
    pub fn from_game_state(state: game::State, ai_player: AIPlayer) -> (r: Self)
        requires
            state.spec_is_game_over(),
        ensures
            r == spec_outcome_from(state, ai_player),
    {
        match state {
            game::State::CatsGame => Outcome::CatsGame,
            game::State::PlayerXWin(_) => match ai_player {
                AIPlayer::PlayerX => Outcome::Win,
                AIPlayer::PlayerO => Outcome::Loss,
            },
            game::State::PlayerOWin(_) => match ai_player {
                AIPlayer::PlayerX => Outcome::Loss,
                AIPlayer::PlayerO => Outcome::Win,
            },
            _ => {
                proof {
                    assert(false);
                }
                Outcome::Unknown
            },
        }
    }
}

/// States that agree structurally carry the same turn, the same game-over
/// flag and the same outcomes.
pub proof fn lemma_deep_eq_state(a: game::State, b: game::State)
    requires
        a.deep_eq(b),
    ensures
        a.spec_is_game_over() == b.spec_is_game_over(),
        spec_turn_player(a) == spec_turn_player(b),
        game::spec_mover(a) == game::spec_mover(b),
        forall|ai: AIPlayer| spec_outcome_from(a, ai) == spec_outcome_from(b, ai),
{
}

/// The worst outcome among a set of outcomes, from the perspective encoded
/// by `my_turn`.
///
/// On the opponent's own turn the order from worst to best is loss, cat's
/// game, win; when simulating the other player's turn the order reverses.
/// An unknown outcome is reported only when no other outcome is present.
pub open spec fn spec_worst_of(s: Set<Outcome>, my_turn: bool) -> Outcome {
    if my_turn {
        if s.contains(Outcome::Loss) {
            Outcome::Loss
        } else if s.contains(Outcome::CatsGame) {
            Outcome::CatsGame
        } else if s.contains(Outcome::Win) {
            Outcome::Win
        } else {
            Outcome::Unknown
        }
    } else {
        if s.contains(Outcome::Win) {
            Outcome::Win
        } else if s.contains(Outcome::CatsGame) {
            Outcome::CatsGame
        } else if s.contains(Outcome::Loss) {
            Outcome::Loss
        } else {
            Outcome::Unknown
        }
    }
}

/// The worst outcome for the perspective encoded by `my_turn`: the outcome
/// that ends a scan early because nothing can be worse.
pub open spec fn spec_worst_first(my_turn: bool) -> Outcome {
    if my_turn {
        Outcome::Loss
    } else {
        Outcome::Win
    }
}

/// The game outcomes ordered from worst to best for the opponent.
///
/// On the opponent's own turn the worst outcome is a loss; when simulating
/// the other player the ordering is reversed, as what is bad for the other
/// player is good for the opponent.
fn worst_to_best_outcomes(is_my_turn: bool) -> (r: [Outcome; 3])
    ensures
        r@.len() == 3,
        r@[0] == spec_worst_first(is_my_turn),
        is_my_turn ==> r@ == seq![Outcome::Loss, Outcome::CatsGame, Outcome::Win],
        !is_my_turn ==> r@ == seq![Outcome::Win, Outcome::CatsGame, Outcome::Loss],
{
    if is_my_turn {
        let r = [Outcome::Loss, Outcome::CatsGame, Outcome::Win];
        proof {
            assert(r@ =~= seq![Outcome::Loss, Outcome::CatsGame, Outcome::Win]);
        }
        r
    } else {
        let r = [Outcome::Win, Outcome::CatsGame, Outcome::Loss];
        proof {
            assert(r@ =~= seq![Outcome::Win, Outcome::CatsGame, Outcome::Loss]);
        }
        r
    }
}

/// Whether the outcome is the worst possible one for the given perspective,
/// so that a scan over sibling moves can stop early.
fn is_worst_outcome(outcome: Outcome, is_my_turn: bool) -> (r: bool)
    ensures
        r == (outcome == spec_worst_first(is_my_turn)),
{
    let worst_to_best = worst_to_best_outcomes(is_my_turn);
    outcome == worst_to_best[0]
}

/// Whether a list of outcomes holds the given outcome.
fn contains_outcome(outcomes: &Vec<Outcome>, outcome: Outcome) -> (r: bool)
    ensures
        r == outcomes@.contains(outcome),
{
    let mut i: usize = 0;
    while i < outcomes.len()
        invariant
            i <= outcomes@.len(),
            forall|j: int| 0 <= j < i ==> outcomes@[j] != outcome,
        decreases outcomes@.len() - i,
    {
        if outcomes[i] == outcome {
            return true;
        }
        i = i + 1;
    }
    false
}

/// Gets the worst outcome among the given outcomes for the perspective
/// encoded by `is_my_turn`. `Unknown` is returned when the list is empty or
/// holds only unknown outcomes.
pub fn worst_outcome(outcomes: &Vec<Outcome>, is_my_turn: bool) -> (r: Outcome)
    ensures
        r == spec_worst_of(outcomes@.to_set(), is_my_turn),
{
    let worst_to_best = worst_to_best_outcomes(is_my_turn);
    let mut i: usize = 0;
    while i < 3
        invariant
            i <= 3,
            worst_to_best@.len() == 3,
            is_my_turn ==> worst_to_best@ == seq![Outcome::Loss, Outcome::CatsGame, Outcome::Win],
            !is_my_turn ==> worst_to_best@ == seq![Outcome::Win, Outcome::CatsGame, Outcome::Loss],
            forall|j: int| 0 <= j < i ==> !outcomes@.contains(#[trigger] worst_to_best@[j]),
        decreases 3 - i,
    {
        if contains_outcome(outcomes, worst_to_best[i]) {
            return worst_to_best[i];
        }
        i = i + 1;
    }
    Outcome::Unknown
}

/// Relies on rand's `Rng::gen_ratio`: returns `true` with probability
/// `numerator`/`denominator`. Nothing is assumed about any single outcome.
#[verifier::external_body]
fn random_ratio(numerator: u32, denominator: u32) -> (r: bool)
    requires
        0 < denominator,
        numerator <= denominator,
{
    rand::thread_rng().gen_ratio(numerator, denominator)
}

/// Relies on rand's `SliceRandom::choose`: picks a uniformly random element
/// of the slice, or nothing exactly when the slice is empty.
#[verifier::external_body]
fn choose_position(positions: &Vec<Position>) -> (r: Option<Position>)
    ensures
        r is Some <==> positions@.len() > 0,
        r matches Some(p) ==> positions@.contains(p),
{
    positions.as_slice().choose(&mut rand::thread_rng()).copied()
}

/// Selects the difficulty used by the [`Opponent`].
///
/// Each difficulty decides, for every node of the search tree, whether the
/// node is evaluated or skipped; skipped branches report an unknown
/// outcome. The type parameter is the decision function a custom
/// difficulty carries; the named presets ignore it.
#[derive(Debug, Copy, Clone, PartialEq, Hash)]
pub enum Difficulty<F> {
    /// Never evaluates the tree: the opponent picks random free positions.
    Random,
    /// Occasionally goes for the win or blocks a loss; otherwise random.
    Easy,
    /// Usually evaluates, but overlooks deeper parts of the tree at times.
    Medium,
    /// Sees the next two plies fully and rarely overlooks anything beyond.
    Hard,
    /// Always evaluates every node: plays perfect games and cannot lose.
    Unbeatable,
    /// Full control: the carried function is asked at every node, with the
    /// search depth (starting at zero) as its argument, and returns whether
    /// to evaluate the node. Speed shortcuts may skip entire evaluations,
    /// in which case the function is not called.
    Custom(F),
}

impl<F: Fn(i32) -> bool> Difficulty<F> {
    /// A custom decision function must accept every depth.
    pub open spec fn policy_ok(&self) -> bool {
        match self {
            Difficulty::Custom(f) => forall|d: i32| #[trigger] call_requires(*f, (d,)),
            _ => true,
        }
    }

    /// Based on the difficulty and the current depth of the outcome tree,
    /// indicates whether the node should be evaluated.
    ///
    /// A custom difficulty's answer is exactly the carried function's
    /// answer for this depth.
    pub fn should_evaluate_node(&self, depth: i32) -> (r: bool)
        requires
            self.policy_ok(),
        ensures
            self is Random ==> r == false,
            self is Unbeatable ==> r == true,
            self is Easy && depth != 0 ==> r == false,
            self is Hard && depth <= 1 ==> r == true,
            self matches Difficulty::Custom(f) ==> call_ensures(*f, (depth,), r),
    {
        match self {
            Difficulty::Random => Self::none_should_evaluate_node(),
            Difficulty::Easy => Self::easy_should_evaluate_node(depth),
            Difficulty::Medium => Self::medium_should_evaluate_node(depth),
            Difficulty::Hard => Self::hard_should_evaluate_node(depth),
            Difficulty::Unbeatable => Self::unbeatable_should_evaluate_node(),
            Difficulty::Custom(custom_should_evaluate_node) => custom_should_evaluate_node(depth),
        }
    }

    /// The random preset never evaluates a node.
    fn none_should_evaluate_node() -> (r: bool)
        ensures
            r == false,
    {
        false
    }

    /// Easy has an even chance of looking at the current move only.
    fn easy_should_evaluate_node(depth: i32) -> (r: bool)
        ensures
            depth != 0 ==> r == false,
    {
        if depth == 0 {
            random_ratio(1, 2)
        } else {
            false
        }
    }

    /// Medium usually sees the current move and often sees deeper ones.
    fn medium_should_evaluate_node(depth: i32) -> bool {
        if depth == 0 {
            random_ratio(9, 10)
        } else {
            random_ratio(3, 4)
        }
    }

    /// Hard always sees two plies ahead and rarely misses beyond that.
    fn hard_should_evaluate_node(depth: i32) -> (r: bool)
        ensures
            depth <= 1 ==> r == true,
    {
        if depth <= 1 {
            true
        } else {
            random_ratio(97, 100)
        }
    }

    /// Unbeatable evaluates every node: the opponent plays a perfect game.
    fn unbeatable_should_evaluate_node() -> (r: bool)
        ensures
            r == true,
    {
        true
    }
}

/// The worst-case outcome, for player `ai`, of `turn` marking square `i` of
/// grid `g` and both sides then playing on: the full minimax value of the
/// move.
///
/// If the move completes a line the mover wins; if it fills the board the
/// game is a cat's game; otherwise the value is the worst, from the
/// perspective taken before the move, among the values of every reply.
pub open spec fn spec_eval(g: Seq<Owner>, turn: AIPlayer, i: int, ai: AIPlayer) -> Outcome
    decreases game::spec_free_count(g), 0int,
    via spec_eval_decreases
{
    if !(g.len() == 9 && 0 <= i < 9 && g[i] == Owner::Nobody) {
        Outcome::Unknown
    } else {
        let g2 = g.update(i, spec_owner_of(turn));
        if !game::spec_win_positions(g2).is_empty() {
            if ai == turn {
                Outcome::Win
            } else {
                Outcome::Loss
            }
        } else if game::spec_free_count(g2) == 0 {
            Outcome::CatsGame
        } else {
            spec_worst_of(
                spec_child_outcomes(g2, spec_other(turn), ai, game::spec_free_seq(g2)),
                ai == turn,
            )
        }
    }
}

/// The set of minimax values of the moves `kids` on grid `g`.
pub open spec fn spec_child_outcomes(
    g: Seq<Owner>,
    turn: AIPlayer,
    ai: AIPlayer,
    kids: Seq<Position>,
) -> Set<Outcome>
    decreases game::spec_free_count(g), 1int + kids.len(),
{
    if kids.len() == 0 {
        Set::empty()
    } else {
        spec_child_outcomes(g, turn, ai, kids.drop_last()).insert(
            spec_eval(g, turn, game::spec_idx(kids.last()), ai),
        )
    }
}

/// The outcome of a move as far as one ply sees: the mover's win when the
/// move completes a line, a cat's game when it fills the board, and
/// unknown otherwise.
pub open spec fn spec_shallow_eval(g: Seq<Owner>, turn: AIPlayer, i: int, ai: AIPlayer) -> Outcome {
    let g2 = g.update(i, spec_owner_of(turn));
    if !game::spec_win_positions(g2).is_empty() {
        if ai == turn {
            Outcome::Win
        } else {
            Outcome::Loss
        }
    } else if game::spec_free_count(g2) == 0 {
        Outcome::CatsGame
    } else {
        Outcome::Unknown
    }
}

#[via_fn]
proof fn spec_eval_decreases(g: Seq<Owner>, turn: AIPlayer, i: int, ai: AIPlayer) {
    if g.len() == 9 && 0 <= i < 9 && g[i] == Owner::Nobody {
        game::lemma_free_prefix_update(g, i, spec_owner_of(turn), 9);
    }
}

/// Each move of `kids` contributes its minimax value to the set of child
/// outcomes.
proof fn lemma_child_outcomes_member(
    g: Seq<Owner>,
    turn: AIPlayer,
    ai: AIPlayer,
    kids: Seq<Position>,
    j: int,
)
    requires
        0 <= j < kids.len(),
    ensures
        spec_child_outcomes(g, turn, ai, kids).contains(
            spec_eval(g, turn, game::spec_idx(kids[j]), ai),
        ),
    decreases kids.len(),
{
    if j == kids.len() - 1 {
        assert(kids.last() == kids[j]);
    } else {
        lemma_child_outcomes_member(g, turn, ai, kids.drop_last(), j);
        assert(kids.drop_last()[j] == kids[j]);
    }
}

/// Extending the processed moves by one inserts that move's minimax value.
proof fn lemma_child_outcomes_take_step(
    g: Seq<Owner>,
    turn: AIPlayer,
    ai: AIPlayer,
    kids: Seq<Position>,
    j: int,
)
    requires
        0 <= j < kids.len(),
    ensures
        spec_child_outcomes(g, turn, ai, kids.take(j + 1)) == spec_child_outcomes(
            g,
            turn,
            ai,
            kids.take(j),
        ).insert(spec_eval(g, turn, game::spec_idx(kids[j]), ai)),
{
    let a = kids.take(j + 1);
    assert(a.drop_last() =~= kids.take(j));
    assert(a.last() == kids[j]);
}

/// Provides a computer controlled opponent.
///
/// This can be used to create single player games or to implement a hint
/// system for human users.
#[derive(Debug, Clone, PartialEq, Hash)]
pub struct Opponent<F> {
    difficulty: Difficulty<F>,
}

impl<F: Fn(i32) -> bool> Opponent<F> {
    /// The difficulty the opponent was constructed with, as seen by
    /// specifications.
    pub closed spec fn spec_difficulty(&self) -> Difficulty<F> {
        self.difficulty
    }

    /// A custom decision function must accept every depth.
    pub open spec fn policy_ok(&self) -> bool {
        self.spec_difficulty().policy_ok()
    }

    /// Constructs a new opponent using the provided difficulty.
    pub fn new(difficulty: Difficulty<F>) -> (r: Self)
        ensures
            r.spec_difficulty() == difficulty,
    {
        Self { difficulty }
    }

    /// The difficulty the opponent was constructed with.
    pub fn difficulty(&self) -> (r: &Difficulty<F>)
        ensures
            *r == self.spec_difficulty(),
    {
        &self.difficulty
    }

    /// Gets the position the opponent wishes to move to, based on the
    /// provided game.
    ///
    /// Nothing is returned exactly when the game is over; a returned
    /// position is always one the game accepts a move to. Away from the
    /// opening position, an unbeatable opponent returns a move whose
    /// worst-case outcome ranks at least as well as that of every other
    /// free position: it plays optimally.
    pub fn get_move(&self, game: &game::Game) -> (r: Option<Position>)
        requires
            game.wf(),
            self.policy_ok(),
        ensures
            r is Some <==> !game.spec_state().spec_is_game_over(),
            r matches Some(p) ==> game.spec_can_move(p),
            !game.spec_state().spec_is_game_over() && game::spec_free_count(game.grid()) != 9
                && self.spec_difficulty() is Unbeatable ==> (r matches Some(p) ==> forall|
                q: Position,
            |
                game::spec_free_seq(game.grid()).contains(q) ==> spec_rank(
                    #[trigger] spec_eval(
                        game.grid(),
                        spec_turn_player(game.spec_state()),
                        game::spec_idx(q),
                        spec_turn_player(game.spec_state()),
                    ),
                ) <= spec_rank(
                    spec_eval(
                        game.grid(),
                        spec_turn_player(game.spec_state()),
                        game::spec_idx(p),
                        spec_turn_player(game.spec_state()),
                    ),
                )),
    {
        let outcomes = self.evaluate_game(game);
        let r = best_position(&outcomes);
        proof {
            game::lemma_free_prefix_no_duplicates(game.grid(), 9);
            if r is Some {
                let p = r->Some_0;
                let j = choose|j: int|
                    0 <= j < outcomes@.len() && (#[trigger] outcomes@[j]).0 == p && spec_rank(
                        outcomes@[j].1,
                    ) == spec_best_rank(outcomes@);
                assert(game.spec_free_list()[j] == p);
                if !game.spec_state().spec_is_game_over() && game::spec_free_count(game.grid())
                    != 9 && self.spec_difficulty() is Unbeatable {
                    let turn = spec_turn_player(game.spec_state());
                    lemma_best_rank_is_max(outcomes@);
                    assert forall|q: Position|
                        game::spec_free_seq(game.grid()).contains(q) implies spec_rank(
                        #[trigger] spec_eval(game.grid(), turn, game::spec_idx(q), turn),
                    ) <= spec_rank(spec_eval(game.grid(), turn, game::spec_idx(p), turn)) by {
                        let k = choose|k: int|
                            0 <= k < game::spec_free_seq(game.grid()).len() && game::spec_free_seq(
                                game.grid(),
                            )[k] == q;
                        assert(outcomes@[k].0 == q);
                        assert(spec_rank(outcomes@[k].1) <= spec_best_rank(outcomes@));
                    }
                }
            }
        }
        r
    }

    /// Evaluates each free position of the provided game, mapping it to the
    /// outcome the opponent expects from moving there. The mapping is empty
    /// exactly when the game is over.
    ///
    /// On a fresh board every position is known to lead to a cat's game
    /// against perfect play, so it is reported directly without searching.
    /// Otherwise an unbeatable opponent reports the exact minimax value of
    /// every free position, and an opponent with the random difficulty
    /// reports every outcome as unknown.
    pub fn evaluate_game(&self, game: &game::Game) -> (r: Vec<(Position, Outcome)>)
        requires
            game.wf(),
            self.policy_ok(),
        ensures
            r@.len() == game.spec_free_list().len(),
            forall|j: int| 0 <= j < r@.len() ==> (#[trigger] r@[j]).0 == game.spec_free_list()[j],
            !game.spec_state().spec_is_game_over() && game::spec_free_count(game.grid()) == 9
                ==> forall|j: int| 0 <= j < r@.len() ==> (#[trigger] r@[j]).1 == Outcome::CatsGame,
            !game.spec_state().spec_is_game_over() && game::spec_free_count(game.grid()) != 9
                && self.spec_difficulty() is Unbeatable ==> forall|j: int|
                0 <= j < r@.len() ==> (#[trigger] r@[j]).1 == spec_eval(
                    game.grid(),
                    spec_turn_player(game.spec_state()),
                    game::spec_idx(r@[j].0),
                    spec_turn_player(game.spec_state()),
                ),
            !game.spec_state().spec_is_game_over() && game::spec_free_count(game.grid()) != 9
                && self.spec_difficulty() is Random ==> forall|j: int|
                0 <= j < r@.len() ==> (#[trigger] r@[j]).1 == Outcome::Unknown,
            !game.spec_state().spec_is_game_over() && game::spec_free_count(game.grid()) != 9
                && self.spec_difficulty() is Easy ==> forall|j: int|
                0 <= j < r@.len() ==> (#[trigger] r@[j]).1 == Outcome::Unknown || r@[j].1
                    == spec_shallow_eval(
                    game.grid(),
                    spec_turn_player(game.spec_state()),
                    game::spec_idx(r@[j].0),
                    spec_turn_player(game.spec_state()),
                ),
    {
        let cached = self.get_cached_outcomes(game);
        match cached {
            Some(outcomes) => outcomes,
            None => {
                let mut outcomes: Vec<(Position, Outcome)> = Vec::new();
                let st = game.state();
                let ghost stg = st;
                proof {
                    lemma_deep_eq_state(stg, game.spec_state());
                }
                let ai_player = AIPlayer::from_game_state(st);
                let free_list = game.free_position_list();
                proof {
                    game::lemma_free_prefix_no_duplicates(game.grid(), 9);
                    game::lemma_free_prefix_len_bound(game.grid(), 9);
                }
                let mut i: usize = 0;
                while i < free_list.len()
                    invariant
                        self.policy_ok(),
                        game.wf(),
                        !game.spec_state().spec_is_game_over(),
                        free_list@ == game::spec_free_seq(game.grid()),
                        free_list@.len() <= 9,
                        ai_player == spec_turn_player(game.spec_state()),
                        i <= free_list@.len(),
                        outcomes@.len() == i,
                        forall|j: int| 0 <= j < i ==> (#[trigger] outcomes@[j]).0 == free_list@[j],
                        self.spec_difficulty() is Unbeatable ==> forall|j: int|
                            0 <= j < i ==> (#[trigger] outcomes@[j]).1 == spec_eval(
                                game.grid(),
                                ai_player,
                                game::spec_idx(free_list@[j]),
                                ai_player,
                            ),
                        self.spec_difficulty() is Random ==> forall|j: int|
                            0 <= j < i ==> (#[trigger] outcomes@[j]).1 == Outcome::Unknown,
                        self.spec_difficulty() is Easy ==> forall|j: int|
                            0 <= j < i ==> (#[trigger] outcomes@[j]).1 == Outcome::Unknown
                                || outcomes@[j].1 == spec_shallow_eval(
                                game.grid(),
                                ai_player,
                                game::spec_idx(free_list@[j]),
                                ai_player,
                            ),
                    decreases free_list@.len() - i,
                {
                    let position = free_list[i];
                    proof {
                        game::lemma_free_prefix_no_duplicates(game.grid(), 9);
                        game::lemma_free_prefix_len_bound(game.grid(), 9);
                    }
                    let outcome = self.evaluate_position(game, position, ai_player, 0);
                    outcomes.push((position, outcome));
                    i = i + 1;
                }
                outcomes
            },
        }
    }

    /// Evaluates what the outcome of the game would be by moving to the
    /// given position, searching every reachable future of the game.
    ///
    /// The search is depth first over cloned game snapshots; at each node
    /// the difficulty decides whether to descend, and skipped branches
    /// report an unknown outcome. The opponent assumes the other player
    /// plays perfectly, so the worst outcome found propagates up the tree;
    /// scanning stops early once nothing worse can be found.
    fn evaluate_position(
        &self,
        game: &game::Game,
        position: Position,
        ai_player: AIPlayer,
        depth: i32,
    ) -> (r: Outcome)
        requires
            game.wf(),
            game.spec_can_move(position),
            self.policy_ok(),
            0 <= depth,
            depth + game::spec_free_count(game.grid()) <= i32::MAX,
        ensures
            self.spec_difficulty() is Random ==> r == Outcome::Unknown,
            self.spec_difficulty() is Unbeatable ==> r == spec_eval(
                game.grid(),
                spec_turn_player(game.spec_state()),
                game::spec_idx(position),
                ai_player,
            ),
            self.spec_difficulty() is Easy && depth != 0 ==> r == Outcome::Unknown,
            self.spec_difficulty() is Easy && depth == 0 ==> (r == Outcome::Unknown || r
                == spec_shallow_eval(
                game.grid(),
                spec_turn_player(game.spec_state()),
                game::spec_idx(position),
                ai_player,
            )),
        decreases game::spec_free_count(game.grid()),
    {
        let ghost g = game.grid();
        let ghost turn = spec_turn_player(game.spec_state());
        proof {
            game::lemma_pos_idx(position);
            game::lemma_free_prefix_membership(g, 9, position);
            assert(game::spec_free_seq(g).contains(position));
        }
        if !self.difficulty.should_evaluate_node(depth) {
            return Outcome::Unknown;
        }
        let st = game.state();
        let ghost stg = st;
        proof {
            lemma_deep_eq_state(stg, game.spec_state());
        }
        let current_player = AIPlayer::from_game_state(st);
        let is_my_turn = ai_player == current_player;
        let mut game2 = game.clone();
        proof {
            lemma_deep_eq_state(game2.spec_state(), game.spec_state());
        }
        let state = match game2.do_move(position) {
            Ok(s) => s,
            Err(_) => {
                proof {
                    assert(false);
                }
                game::State::CatsGame
            },
        };
        let ghost g2 = g.update(game::spec_idx(position), spec_owner_of(turn));
        proof {
            assert(game::spec_mover(game.spec_state()) == spec_owner_of(turn));
            assert(game2.grid() == g2);
            game::lemma_free_prefix_update(g, game::spec_idx(position), spec_owner_of(turn), 9);
            lemma_deep_eq_state(state, game2.spec_state());
        }
        if state.is_game_over() {
            let ghost sg = state;
            proof {
                if game::spec_win_positions(g2).is_empty() {
                    assert(game::spec_free_count(g2) == 0);
                    assert(game2.spec_state() == game::State::CatsGame);
                    assert(spec_outcome_from(sg, ai_player) == Outcome::CatsGame);
                } else {
                    match game2.spec_state() {
                        game::State::PlayerXWin(_) => {
                            assert(spec_owner_of(turn) == Owner::PlayerX);
                        },
                        game::State::PlayerOWin(_) => {
                            assert(spec_owner_of(turn) == Owner::PlayerO);
                        },
                        _ => {
                            assert(false);
                        },
                    }
                }
            }
            return Outcome::from_game_state(state, ai_player);
        }
        proof {
            assert(game::spec_win_positions(g2).is_empty());
            assert(game::spec_free_count(g2) > 0);
            assert(spec_turn_player(game2.spec_state()) == spec_other(turn));
            game::lemma_free_prefix_no_duplicates(g2, 9);
            game::lemma_free_prefix_len_bound(g2, 9);
        }
        let free_list = game2.free_position_list();
        let mut outcomes: Vec<Outcome> = Vec::new();
        let mut i: usize = 0;
        while i < free_list.len()
            invariant
                self.policy_ok(),
                game2.wf(),
                !game2.spec_state().spec_is_game_over(),
                g == game.grid(),
                g.len() == 9,
                turn == spec_turn_player(game.spec_state()),
                0 <= game::spec_idx(position) < 9,
                g[game::spec_idx(position)] == Owner::Nobody,
                g2 == g.update(game::spec_idx(position), spec_owner_of(turn)),
                game::spec_win_positions(g2).is_empty(),
                game2.grid() == g2,
                free_list@ == game::spec_free_seq(g2),
                free_list@.len() <= 9,
                spec_turn_player(game2.spec_state()) == spec_other(turn),
                is_my_turn == (ai_player == turn),
                i <= free_list@.len(),
                0 <= depth < i32::MAX,
                depth + 1 + game::spec_free_count(g2) <= i32::MAX,
                game::spec_free_count(g2) < game::spec_free_count(g),
                self.spec_difficulty() is Unbeatable ==> outcomes@.to_set() == spec_child_outcomes(
                    g2,
                    spec_other(turn),
                    ai_player,
                    free_list@.take(i as int),
                ),
                outcomes@.len() == i,
                self.spec_difficulty() is Easy ==> forall|j: int|
                    0 <= j < i ==> #[trigger] outcomes@[j] == Outcome::Unknown,
                self.spec_difficulty() is Easy ==> depth == 0,
                !(self.spec_difficulty() is Random),
            decreases free_list@.len() - i,
        {
            let free_position = free_list[i];
            proof {
                game::lemma_free_prefix_no_duplicates(g2, 9);
            }
            let outcome = self.evaluate_position(&game2, free_position, ai_player, depth + 1);
            if is_worst_outcome(outcome, is_my_turn) {
                proof {
                    if self.spec_difficulty() is Unbeatable {
                        lemma_child_outcomes_member(
                            g2,
                            spec_other(turn),
                            ai_player,
                            free_list@,
                            i as int,
                        );
                    }
                }
                return outcome;
            }
            let ghost before = outcomes@;
            outcomes.push(outcome);
            proof {
                if self.spec_difficulty() is Unbeatable {
                    lemma_child_outcomes_take_step(
                        g2,
                        spec_other(turn),
                        ai_player,
                        free_list@,
                        i as int,
                    );
                    game::lemma_push_to_set(before, outcome);
                }
                if self.spec_difficulty() is Easy {
                    assert forall|j: int| 0 <= j < i + 1 implies #[trigger] outcomes@[j]
                        == Outcome::Unknown by {
                        if j < i {
                            assert(outcomes@[j] == before[j]);
                        } else {
                            assert(outcomes@[j] == outcome);
                        }
                    }
                }
            }
            i = i + 1;
        }
        proof {
            if self.spec_difficulty() is Unbeatable {
                assert(free_list@.take(free_list@.len() as int) =~= free_list@);
            }
            if self.spec_difficulty() is Easy {
                assert(!outcomes@.contains(Outcome::Loss)) by {
                    if outcomes@.contains(Outcome::Loss) {
                        let j = choose|j: int|
                            0 <= j < outcomes@.len() && outcomes@[j] == Outcome::Loss;
                        assert(outcomes@[j] == Outcome::Unknown);
                    }
                }
                assert(!outcomes@.contains(Outcome::CatsGame)) by {
                    if outcomes@.contains(Outcome::CatsGame) {
                        let j = choose|j: int|
                            0 <= j < outcomes@.len() && outcomes@[j] == Outcome::CatsGame;
                        assert(outcomes@[j] == Outcome::Unknown);
                    }
                }
                assert(!outcomes@.contains(Outcome::Win)) by {
                    if outcomes@.contains(Outcome::Win) {
                        let j = choose|j: int|
                            0 <= j < outcomes@.len() && outcomes@[j] == Outcome::Win;
                        assert(outcomes@[j] == Outcome::Unknown);
                    }
                }
            }
        }
        worst_outcome(&outcomes, is_my_turn)
    }

    /// Answers the two situations that need no search: a finished game has
    /// an empty mapping, and on a fresh board every free position's
    /// worst-case outcome is a cat's game, because neither side can force a
    /// win from the start against perfect play.
    fn get_cached_outcomes(&self, game: &game::Game) -> (r: Option<Vec<(Position, Outcome)>>)
        requires
            game.wf(),
        ensures
            game.spec_state().spec_is_game_over() ==> (r matches Some(v) && v@.len() == 0),
            !game.spec_state().spec_is_game_over() && game::spec_free_count(game.grid()) == 9
                ==> (r matches Some(v) && v@.len() == game.spec_free_list().len() && (forall|
                j: int,
            |
                0 <= j < v@.len() ==> #[trigger] v@[j] == (
                    game.spec_free_list()[j],
                    Outcome::CatsGame,
                ))),
            !game.spec_state().spec_is_game_over() && game::spec_free_count(game.grid()) != 9
                ==> r is None,
    {
        let st = game.state();
        if st.is_game_over() {
            Some(Vec::new())
        } else if is_new_game(game) {
            let outcomes = initialize_free_position_outcomes(
                game.free_positions(),
                Outcome::CatsGame,
            );
            Some(outcomes)
        } else {
            None
        }
    }
}

/// The rank of an outcome when picking a move: a win is best, then a cat's
/// game, then an unknown outcome, and a loss is worst. A cat's game ranks
/// above unknown because the opponent would rather force a draw than risk a
/// loss.
pub open spec fn spec_rank(o: Outcome) -> int {
    match o {
        Outcome::Win => 3,
        Outcome::CatsGame => 2,
        Outcome::Unknown => 1,
        Outcome::Loss => 0,
    }
}

/// The best rank among the outcomes of a mapping; one less than the lowest
/// rank when the mapping is empty.
pub open spec fn spec_best_rank(s: Seq<(Position, Outcome)>) -> int
    decreases s.len(),
{
    if s.len() == 0 {
        -1
    } else {
        let rest = spec_best_rank(s.drop_last());
        if spec_rank(s.last().1) > rest {
            spec_rank(s.last().1)
        } else {
            rest
        }
    }
}

/// Every outcome's rank is bounded by the best rank of its mapping.
proof fn lemma_best_rank_is_max(s: Seq<(Position, Outcome)>)
    ensures
        forall|j: int| 0 <= j < s.len() ==> spec_rank((#[trigger] s[j]).1) <= spec_best_rank(s),
    decreases s.len(),
{
    if s.len() > 0 {
        lemma_best_rank_is_max(s.drop_last());
        assert forall|j: int| 0 <= j < s.len() implies spec_rank((#[trigger] s[j]).1)
            <= spec_best_rank(s) by {
            if j < s.len() - 1 {
                assert(s.drop_last()[j] == s[j]);
            } else {
                assert(s.last() == s[j]);
            }
        }
    }
}

/// The best rank never exceeds a bound that every outcome respects.
proof fn lemma_best_rank_le(s: Seq<(Position, Outcome)>, v: int)
    requires
        -1 <= v,
        forall|j: int| 0 <= j < s.len() ==> spec_rank((#[trigger] s[j]).1) <= v,
    ensures
        spec_best_rank(s) <= v,
    decreases s.len(),
{
    if s.len() > 0 {
        assert forall|j: int| 0 <= j < s.drop_last().len() implies spec_rank(
            (#[trigger] s.drop_last()[j]).1,
        ) <= v by {
            assert(s.drop_last()[j] == s[j]);
        }
        lemma_best_rank_le(s.drop_last(), v);
    }
}

/// The best rank is the rank that some outcome reaches and none exceeds.
proof fn lemma_best_rank_eq(s: Seq<(Position, Outcome)>, v: int)
    requires
        exists|j: int| 0 <= j < s.len() && spec_rank((#[trigger] s[j]).1) == v,
        forall|j: int| 0 <= j < s.len() ==> spec_rank((#[trigger] s[j]).1) <= v,
    ensures
        spec_best_rank(s) == v,
    decreases s.len(),
{
    let j0 = choose|j: int| 0 <= j < s.len() && spec_rank((#[trigger] s[j]).1) == v;
    assert forall|j: int| 0 <= j < s.drop_last().len() implies spec_rank(
        (#[trigger] s.drop_last()[j]).1,
    ) <= v by {
        assert(s.drop_last()[j] == s[j]);
    }
    if j0 == s.len() - 1 {
        lemma_best_rank_le(s.drop_last(), v);
        assert(s.last() == s[j0]);
    } else {
        assert(s.drop_last()[j0] == s[j0]);
        lemma_best_rank_eq(s.drop_last(), v);
    }
}

/// Picks a position with the best outcome from the provided mapping of
/// positions to outcomes.
///
/// The ordering of outcomes from best to worst is win, cat's game, unknown,
/// loss. Among positions tied for the best outcome one is picked at random.
/// Nothing is returned exactly when the mapping is empty.
pub fn best_position(outcomes: &Vec<(Position, Outcome)>) -> (r: Option<Position>)
    ensures
        r is Some <==> outcomes@.len() > 0,
        r matches Some(p) ==> exists|j: int|
            0 <= j < outcomes@.len() && (#[trigger] outcomes@[j]).0 == p && spec_rank(
                outcomes@[j].1,
            ) == spec_best_rank(outcomes@),
{
    let best_to_worst = [Outcome::Win, Outcome::CatsGame, Outcome::Unknown, Outcome::Loss];
    proof {
        assert(best_to_worst@ =~= seq![
            Outcome::Win,
            Outcome::CatsGame,
            Outcome::Unknown,
            Outcome::Loss,
        ]);
    }
    let mut oi: usize = 0;
    while oi < 4
        invariant
            oi <= 4,
            best_to_worst@ =~= seq![
                Outcome::Win,
                Outcome::CatsGame,
                Outcome::Unknown,
                Outcome::Loss,
            ],
            forall|j: int|
                0 <= j < outcomes@.len() ==> spec_rank((#[trigger] outcomes@[j]).1) <= 3 - oi,
        decreases 4 - oi,
    {
        let target = best_to_worst[oi];
        proof {
            assert(spec_rank(target) == 3 - oi);
        }
        let candidates = positions_with_outcome(outcomes, target);
        if candidates.len() > 0 {
            proof {
                lemma_best_rank_eq(outcomes@, 3 - oi as int);
            }
            let chosen = choose_position(&candidates);
            match chosen {
                Some(position) => {
                    proof {
                        let k = choose|k: int|
                            0 <= k < candidates@.len() && candidates@[k] == position;
                        assert(exists|j: int|
                            0 <= j < outcomes@.len() && outcomes@[j] == (
                                #[trigger] candidates@[k],
                                target,
                            ));
                    }
                    return Some(position);
                },
                None => {
                    proof {
                        assert(false);
                    }
                    return None;
                },
            }
        }
        proof {
            assert forall|j: int| 0 <= j < outcomes@.len() implies spec_rank(
                (#[trigger] outcomes@[j]).1,
            ) <= 3 - (oi + 1) by {
                if outcomes@[j].1 == target {
                    assert(candidates@.len() > 0);
                }
            }
        }
        oi = oi + 1;
    }
    proof {
        if outcomes@.len() > 0 {
            assert(spec_rank(outcomes@[0].1) >= 0);
        }
    }
    None
}

/// The positions of a mapping whose outcome is the given one.
fn positions_with_outcome(outcomes: &Vec<(Position, Outcome)>, target: Outcome) -> (r: Vec<
    Position,
>)
    ensures
        r@.len() > 0 <==> exists|j: int|
            0 <= j < outcomes@.len() && (#[trigger] outcomes@[j]).1 == target,
        forall|k: int|
            0 <= k < r@.len() ==> exists|j: int|
                0 <= j < outcomes@.len() && outcomes@[j] == (#[trigger] r@[k], target),
{
    let mut r: Vec<Position> = Vec::new();
    let mut i: usize = 0;
    while i < outcomes.len()
        invariant
            i <= outcomes@.len(),
            r@.len() > 0 <==> exists|j: int|
                0 <= j < i && (#[trigger] outcomes@[j]).1 == target,
            forall|k: int|
                0 <= k < r@.len() ==> exists|j: int|
                    0 <= j < outcomes@.len() && outcomes@[j] == (#[trigger] r@[k], target),
        decreases outcomes@.len() - i,
    {
        let (position, outcome) = outcomes[i];
        if outcome == target {
            r.push(position);
            proof {
                assert(outcomes@[i as int] == (position, target));
            }
        }
        i = i + 1;
    }
    r
}

/// Fills a mapping that gives every remaining free position the indicated
/// outcome.
pub fn initialize_free_position_outcomes(
    free_positions: game::FreePositions,
    outcome: Outcome,
) -> (r: Vec<(Position, Outcome)>)
    requires
        free_positions.wf(),
    ensures
        r@.len() == free_positions.remaining().len(),
        forall|j: int|
            0 <= j < r@.len() ==> #[trigger] r@[j] == (free_positions.remaining()[j], outcome),
{
    let ghost orig = free_positions.remaining();
    let mut iter = free_positions;
    let mut outcomes: Vec<(Position, Outcome)> = Vec::new();
    let mut more = true;
    while more
        invariant
            iter.wf(),
            iter.remaining() == orig.skip(outcomes@.len() as int),
            outcomes@.len() <= orig.len(),
            forall|j: int| 0 <= j < outcomes@.len() ==> #[trigger] outcomes@[j] == (orig[j], outcome),
            !more ==> iter.remaining().len() == 0,
        decreases iter.remaining().len() + (if more {
            1int
        } else {
            0int
        }),
    {
        let ghost before = outcomes@.len() as int;
        match iter.next() {
            Some(position) => {
                proof {
                    assert(orig.skip(before)[0] == orig[before]);
                    assert(orig.skip(before).skip(1) =~= orig.skip(before + 1));
                }
                outcomes.push((position, outcome));
            },
            None => {
                more = false;
            },
        }
    }
    proof {
        assert(orig.skip(outcomes@.len() as int).len() == 0);
    }
    outcomes
}

/// Whether the provided game is a new game: every position is free.
fn is_new_game(game: &game::Game) -> (r: bool)
    requires
        game.wf(),
    ensures
        r == (game.spec_free_list().len() == 9),
{
    let size = game.board().size();
    let total_positions = size.rows * size.columns;
    let mut iter = game.free_positions();
    let mut free_count: i32 = 0;
    let mut more = true;
    proof {
        game::lemma_free_prefix_len_bound(game.grid(), 9);
    }
    while more
        invariant
            iter.wf(),
            0 <= free_count,
            free_count + iter.remaining().len() == game.spec_free_list().len(),
            game.spec_free_list().len() <= 9,
            !more ==> iter.remaining().len() == 0,
        decreases iter.remaining().len() + (if more {
            1int
        } else {
            0int
        }),
    {
        match iter.next() {
            Some(_) => {
                free_count = free_count + 1;
            },
            None => {
                more = false;
            },
        }
    }
    free_count == total_positions
}

} // verus!
