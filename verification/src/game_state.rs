//! Game state management: turns, eliminations, scoring, dead-king-walking.
//!
//! Wraps the board with game-level state for four-player chess. Search
//! works on the board directly with make/unmake; the game-level fields are
//! only kept up to date by `apply_move` and its siblings.

use vstd::prelude::*;
use crate::attacks::{attacked_by, in_check};
use crate::board::{Board, BoardState};
use crate::legal::{canon_legal, generate_legal_moves, legal_in, lemma_legal_in_count};
use crate::makemove::{kings_consistent, own};
use crate::moves::Move;
use crate::zobrist::stm_key;
use crate::types::{next_player, pidx, player_at, prev_player, PieceType, Player, Square};

verus! {

// ─── Constants ──────────────────────────────────────────────────────────────

/// Maximum half-moves recorded in the position history.
pub const MAX_GAME_LENGTH: usize = 1024;

/// FFA points awarded for checkmating an opponent's king.
pub const CHECKMATE_POINTS: u16 = 20;

/// FFA points awarded to a stalemated player (self-award).
pub const STALEMATE_POINTS: u16 = 20;

/// FFA points awarded to each active player on a draw.
pub const DRAW_POINTS: u16 = 10;

/// Point lead required to claim a win with 2 active players.
pub const CLAIM_WIN_THRESHOLD: u16 = 21;

/// 50-move rule threshold in half-moves (50 rounds of 4 players).
pub const FIFTY_MOVE_THRESHOLD: u16 = 200;

/// Largest score from which one more game step cannot overflow.
pub const SCORE_LIMIT: u16 = 65335;

/// The king square of an eliminated player.
pub const ELIMINATED_KING_SENTINEL: u8 = 255;

// ─── Enums ──────────────────────────────────────────────────────────────────

/// Status of a player in the game: active, dead king walking (resigned or
/// timed out: pieces dead, king wanders), or eliminated.
#[derive(Debug, Clone, Copy, PartialEq, Eq, Structural)]
pub enum PlayerStatus {
    Active,
    DeadKingWalking,
    Eliminated,
}

/// Reason a player was eliminated.
#[derive(Debug, Clone, Copy, PartialEq, Eq, Structural)]
pub enum EliminationReason {
    Checkmate,
    Stalemate,
    Resignation,
    Timeout,
    DkwKingStuck,
}

/// Game mode — determines win conditions.
#[derive(Debug, Clone, Copy, PartialEq, Eq, Structural)]
pub enum GameMode {
    FreeForAll,
}

/// Result of the game.
#[derive(Debug, Clone, Copy, PartialEq, Eq, Structural)]
pub enum GameResult {
    Ongoing,
    Decisive { winner: Player },
    Draw,
}

/// What happened when a player's turn arrived.
#[derive(Debug, Clone, Copy, PartialEq, Eq, Structural)]
pub enum TurnDetermination {
    HasMoves,
    Checkmate,
    Stalemate,
}

// ─── Scoring ────────────────────────────────────────────────────────────────

/// FFA capture points of a piece type.
pub open spec fn capture_points_of(pt: PieceType) -> int {
    match pt {
        PieceType::Pawn => 1,
        PieceType::Knight => 3,
        PieceType::Bishop => 5,
        PieceType::Rook => 5,
        PieceType::Queen => 9,
        PieceType::PromotedQueen => 1,
        PieceType::King => 0,
    }
}

/// FFA capture points by piece type (a promoted queen counts as a pawn).
pub fn capture_points(piece_type: PieceType) -> (r: u16)
    ensures
        r == capture_points_of(piece_type),
{
    match piece_type {
        PieceType::Pawn => 1,
        PieceType::Knight => 3,
        PieceType::Bishop => 5,
        PieceType::Rook => 5,
        PieceType::Queen => 9,
        PieceType::PromotedQueen => 1,
        PieceType::King => 0,
    }
}

/// Bonus points for checking several opponent kings with one move.
pub open spec fn check_bonus_of(n: int) -> int {
    if n <= 1 {
        0
    } else if n == 2 {
        1
    } else {
        5
    }
}

/// Bonus points for checking multiple opponent kings with one move.
pub fn check_bonus_points(kings_checked: usize) -> (r: u16)
    ensures
        r == check_bonus_of(kings_checked as int),
{
    if kings_checked <= 1 {
        0
    } else if kings_checked == 2 {
        1
    } else {
        5
    }
}

// ─── Turn order over statuses ───────────────────────────────────────────────

/// The first of the three players after `after` that is active.
pub open spec fn next_active(st: Seq<PlayerStatus>, after: Player) -> Option<Player> {
    let a = next_player(after);
    let b = next_player(a);
    let c = next_player(b);
    if st[pidx(a)] == PlayerStatus::Active {
        Some(a)
    } else if st[pidx(b)] == PlayerStatus::Active {
        Some(b)
    } else if st[pidx(c)] == PlayerStatus::Active {
        Some(c)
    } else {
        None
    }
}

/// The first active player in turn order from `c`, `c` itself included.
pub open spec fn active_from(st: Seq<PlayerStatus>, c: Player) -> Option<Player> {
    if st[pidx(c)] == PlayerStatus::Active {
        Some(c)
    } else {
        next_active(st, c)
    }
}

/// Eliminating the first active player from `c` passes that place to the
/// next active player after it, unless at most one active player is left.
proof fn lemma_active_from_step(st: Seq<PlayerStatus>, c: Player, x: Player, y: Player)
    requires
        st.len() == 4,
        active_from(st, c) == Some(x),
        next_active(st.update(pidx(x), PlayerStatus::Eliminated), x) == Some(y),
    ensures
        active_from(st.update(pidx(x), PlayerStatus::Eliminated), c) == Some(y) || active_count(
            st.update(pidx(x), PlayerStatus::Eliminated),
        ) <= 1,
{
    let st2 = st.update(pidx(x), PlayerStatus::Eliminated);
    reveal_with_fuel(active_count_upto, 5);
    assert(st2[0] == (if pidx(x) == 0 { PlayerStatus::Eliminated } else { st[0] }));
    assert(st2[1] == (if pidx(x) == 1 { PlayerStatus::Eliminated } else { st[1] }));
    assert(st2[2] == (if pidx(x) == 2 { PlayerStatus::Eliminated } else { st[2] }));
    assert(st2[3] == (if pidx(x) == 3 { PlayerStatus::Eliminated } else { st[3] }));
}

/// The turn passed to the next active player after `mover`, then moved on
/// through players that left the game since, lands on the next active
/// player after `mover` (unless at most one active player is left).
proof fn lemma_turn_lands(s1: Seq<PlayerStatus>, s2: Seq<PlayerStatus>, mover: Player, c: Player, cur: Player)
    requires
        s1.len() == 4,
        s2.len() == 4,
        next_active(s1, mover) == Some(c),
        active_from(s2, c) == Some(cur),
        forall|i: int| 0 <= i < 4 ==> status_rank(#[trigger] s2[i]) >= status_rank(s1[i]),
    ensures
        next_active(s2, mover) == Some(cur) || active_count(s2) <= 1,
{
    reveal_with_fuel(active_count_upto, 5);
    assert(status_rank(s2[0]) >= status_rank(s1[0]));
    assert(status_rank(s2[1]) >= status_rank(s1[1]));
    assert(status_rank(s2[2]) >= status_rank(s1[2]));
    assert(status_rank(s2[3]) >= status_rank(s1[3]));
}

/// The first of the three players before `before` that is not eliminated.
pub open spec fn prev_in_play(st: Seq<PlayerStatus>, before: Player) -> Option<Player> {
    let a = prev_player(before);
    let b = prev_player(a);
    let c = prev_player(b);
    if st[pidx(a)] != PlayerStatus::Eliminated {
        Some(a)
    } else if st[pidx(b)] != PlayerStatus::Eliminated {
        Some(b)
    } else if st[pidx(c)] != PlayerStatus::Eliminated {
        Some(c)
    } else {
        None
    }
}

/// The number of active players among the first `n`.
pub open spec fn active_count_upto(st: Seq<PlayerStatus>, n: int) -> int
    decreases n,
{
    if n <= 0 {
        0
    } else {
        active_count_upto(st, n - 1) + if st[n - 1] == PlayerStatus::Active {
            1int
        } else {
            0int
        }
    }
}

/// The number of active players.
pub open spec fn active_count(st: Seq<PlayerStatus>) -> int {
    active_count_upto(st, 4)
}

/// The number of entries of `h` equal to `x`.
pub open spec fn occurrences(h: Seq<u64>, x: u64) -> int
    decreases h.len(),
{
    if h.len() == 0 {
        0
    } else {
        occurrences(h.drop_last(), x) + if h.last() == x {
            1int
        } else {
            0int
        }
    }
}

// ─── GameState ──────────────────────────────────────────────────────────────

/// The full game state for four-player chess.
#[derive(Clone)]
pub struct GameState {
    board: Board,
    player_status: [PlayerStatus; 4],
    scores: [u16; 4],
    current_player: Player,
    elimination_order: [Option<Player>; 4],
    elimination_count: u8,
    position_history: Vec<u64>,
    half_move_clock: u16,
    game_mode: GameMode,
    game_over: bool,
    winner: Option<Player>,
    rng_seed: u64,
}

impl GameState {
    /// The board.
    pub closed spec fn board_of(&self) -> Board {
        self.board
    }

    /// Each player's status, by player index.
    pub closed spec fn statuses(&self) -> Seq<PlayerStatus> {
        self.player_status@
    }

    /// Each player's score, by player index.
    pub closed spec fn score_seq(&self) -> Seq<u16> {
        self.scores@
    }

    /// The player whose turn it is.
    pub closed spec fn current(&self) -> Player {
        self.current_player
    }

    /// The recorded position hashes, oldest first.
    pub closed spec fn history(&self) -> Seq<u64> {
        self.position_history@
    }

    /// The eliminated players in order, and how many there are.
    pub closed spec fn eliminations(&self) -> (Seq<Option<Player>>, int) {
        (self.elimination_order@, self.elimination_count as int)
    }

    /// The half-move clock.
    pub closed spec fn clock(&self) -> u16 {
        self.half_move_clock
    }

    /// The game has ended.
    pub closed spec fn over(&self) -> bool {
        self.game_over
    }

    /// The winner, once decided.
    pub closed spec fn winner_of(&self) -> Option<Player> {
        self.winner
    }

    /// The state of the dead-king-walking move picker.
    pub closed spec fn seed(&self) -> u64 {
        self.rng_seed
    }

    /// The internal invariant: a well-formed board, a bounded history and
    /// at most four eliminations recorded.
    pub closed spec fn wf(&self) -> bool {
        &&& self.board.wf()
        &&& self.position_history@.len() <= MAX_GAME_LENGTH
        &&& self.elimination_count <= 4
    }

    /// A well-formed state keeps at most `MAX_GAME_LENGTH` positions of
    /// history.
    pub proof fn lemma_history_bound(&self)
        requires
            self.wf(),
        ensures
            self.history().len() <= MAX_GAME_LENGTH,
    {
    }

    /// A well-formed state holds a well-formed board.
    pub proof fn lemma_board_wf(&self)
        requires
            self.wf(),
        ensures
            self.board_of().wf(),
    {
    }

    /// `self` and `other` agree on everything but the board.
    pub open spec fn same_but_board(&self, other: &GameState) -> bool {
        &&& self.statuses() == other.statuses()
        &&& self.score_seq() == other.score_seq()
        &&& self.current() == other.current()
        &&& self.history() == other.history()
        &&& self.eliminations() == other.eliminations()
        &&& self.clock() == other.clock()
        &&& self.over() == other.over()
        &&& self.winner_of() == other.winner_of()
        &&& self.seed() == other.seed()
    }

    /// A state that differs from a well-formed one only in a well-formed
    /// board is well-formed.
    pub proof fn lemma_wf_same_but_board(&self, other: &GameState)
        requires
            other.wf(),
            self.same_but_board(other),
            self.board_of().wf(),
        ensures
            self.wf(),
    {
    }

    /// Every score leaves room for one more game step.
    pub open spec fn scores_fit(&self) -> bool {
        forall|i: int| 0 <= i < 4 ==> self.score_seq()[i] <= SCORE_LIMIT
    }

    /// Create a new game state from a board: everyone active, no scores,
    /// the board's side to move to play.
    pub fn new(board: Board) -> (g: Self)
        requires
            board.wf(),
        ensures
            g.wf(),
            g.board_of() == board,
            forall|i: int| 0 <= i < 4 ==> g.statuses()[i] == PlayerStatus::Active,
            forall|i: int| 0 <= i < 4 ==> g.score_seq()[i] == 0,
            g.current() == board@.stm,
            g.history().len() == 0,
            g.eliminations().1 == 0,
            g.clock() == 0,
            !g.over(),
            g.winner_of() is None,
            g.seed() == 0xDEAD_BEEF_CAFE_BABEu64,
    {
        let current_player = board.side_to_move();
        GameState {
            board,
            player_status: [PlayerStatus::Active, PlayerStatus::Active, PlayerStatus::Active, PlayerStatus::Active],
            scores: [0, 0, 0, 0],
            current_player,
            elimination_order: [None, None, None, None],
            elimination_count: 0,
            position_history: Vec::new(),
            half_move_clock: 0,
            game_mode: GameMode::FreeForAll,
            game_over: false,
            winner: None,
            rng_seed: 0xDEAD_BEEF_CAFE_BABE,
        }
    }

    /// Create a standard FFA game from the starting position.
    pub fn new_standard_ffa() -> (g: Self)
        ensures
            g.wf(),
            g.board_of()@.stm == Player::Red,
            g.current() == Player::Red,
            crate::makemove::kings_consistent(g.board_of()@),
            forall|i: int| 0 <= i < 4 ==> g.statuses()[i] == PlayerStatus::Active,
            forall|i: int| 0 <= i < 4 ==> g.score_seq()[i] == 0,
            g.history().len() == 0,
            g.clock() == 0,
            !g.over(),
            g.winner_of() is None,
            forall|i: int| 0 <= i < 196 ==> #[trigger] g.board_of()@.squares[i] == crate::board::start_piece(i),
            g.board_of()@.kings == seq![7u8, 84u8, 188u8, 111u8],
            g.board_of()@.castling == 0xFF,
            g.board_of()@.ep is None,
            g.board_of()@.ep_player is None,
            crate::board::hash_consistent(g.board_of()@),
            forall|p: int| 0 <= p < 4 ==> #[trigger] g.board_of().pieces_view(p).len() == 16,
            g.eliminations().1 == 0,
    {
        let b = Board::starting_position();
        proof {
            crate::makemove::lemma_start_kings_consistent(b@);
        }
        Self::new(b)
    }
}

// ─── Accessors ──────────────────────────────────────────────────────────────

/// The result a finished or ongoing game reports.
pub open spec fn result_of(over: bool, winner: Option<Player>) -> GameResult {
    if !over {
        GameResult::Ongoing
    } else {
        match winner {
            Some(w) => GameResult::Decisive { winner: w },
            None => GameResult::Draw,
        }
    }
}

impl GameState {
    pub fn board(&self) -> (b: &Board)
        ensures
            *b == self.board_of(),
    {
        &self.board
    }

    pub fn board_mut(&mut self) -> (b: &mut Board)
        ensures
            *b == old(self).board_of(),
            final(self).board_of() == *final(b),
            final(self).statuses() == old(self).statuses(),
            final(self).score_seq() == old(self).score_seq(),
            final(self).current() == old(self).current(),
            final(self).history() == old(self).history(),
            final(self).eliminations() == old(self).eliminations(),
            final(self).clock() == old(self).clock(),
            final(self).over() == old(self).over(),
            final(self).winner_of() == old(self).winner_of(),
            final(self).seed() == old(self).seed(),
    {
        &mut self.board
    }

    pub fn player_status(&self, player: Player) -> (s: PlayerStatus)
        ensures
            s == self.statuses()[pidx(player)],
    {
        self.player_status[player.index()]
    }

    pub fn score(&self, player: Player) -> (s: u16)
        ensures
            s == self.score_seq()[pidx(player)],
    {
        self.scores[player.index()]
    }

    pub fn scores(&self) -> (s: [u16; 4])
        ensures
            s@ == self.score_seq(),
    {
        self.scores
    }

    pub fn current_player(&self) -> (p: Player)
        ensures
            p == self.current(),
    {
        self.current_player
    }

    pub fn is_game_over(&self) -> (r: bool)
        ensures
            r == self.over(),
    {
        self.game_over
    }

    pub fn winner(&self) -> (w: Option<Player>)
        ensures
            w == self.winner_of(),
    {
        self.winner
    }

    pub fn result(&self) -> (r: GameResult)
        ensures
            r == result_of(self.over(), self.winner_of()),
    {
        if !self.game_over {
            GameResult::Ongoing
        } else {
            match self.winner {
                Some(w) => GameResult::Decisive { winner: w },
                None => GameResult::Draw,
            }
        }
    }

    pub fn is_active(&self, player: Player) -> (r: bool)
        ensures
            r == (self.statuses()[pidx(player)] == PlayerStatus::Active),
    {
        self.player_status[player.index()] == PlayerStatus::Active
    }

    pub fn active_player_count(&self) -> (n: usize)
        ensures
            n == active_count(self.statuses()),
    {
        let mut n: usize = 0;
        let mut i: usize = 0;
        while i < 4
            invariant
                i <= 4,
                n == active_count_upto(self.player_status@, i as int),
                n <= i,
            decreases 4 - i,
        {
            if self.player_status[i] == PlayerStatus::Active {
                n += 1;
            }
            i += 1;
        }
        n
    }

    pub fn half_move_clock(&self) -> (c: u16)
        ensures
            c == self.clock(),
    {
        self.half_move_clock
    }

    pub fn history_count(&self) -> (c: u16)
        requires
            self.wf(),
        ensures
            c == self.history().len(),
    {
        self.position_history.len() as u16
    }

    // ─── Setting up positions ───────────────────────────────────────────────

    /// Set a player's status.
    pub fn set_player_status(&mut self, player: Player, status: PlayerStatus)
        ensures
            final(self).statuses() == old(self).statuses().update(pidx(player), status),
            final(self).board_of() == old(self).board_of(),
            final(self).score_seq() == old(self).score_seq(),
            final(self).current() == old(self).current(),
            final(self).history() == old(self).history(),
            final(self).eliminations() == old(self).eliminations(),
            final(self).clock() == old(self).clock(),
            final(self).over() == old(self).over(),
            final(self).winner_of() == old(self).winner_of(),
            final(self).seed() == old(self).seed(),
    {
        self.player_status[player.index()] = status;
    }

    /// Set a player's score.
    pub fn set_score(&mut self, player: Player, score: u16)
        ensures
            final(self).score_seq() == old(self).score_seq().update(pidx(player), score),
            final(self).statuses() == old(self).statuses(),
            final(self).board_of() == old(self).board_of(),
            final(self).current() == old(self).current(),
            final(self).history() == old(self).history(),
            final(self).eliminations() == old(self).eliminations(),
            final(self).clock() == old(self).clock(),
            final(self).over() == old(self).over(),
            final(self).winner_of() == old(self).winner_of(),
            final(self).seed() == old(self).seed(),
    {
        self.scores[player.index()] = score;
    }

    /// Set the player to move, on the board too.
    pub fn set_current_player(&mut self, player: Player)
        requires
            old(self).wf(),
        ensures
            final(self).wf(),
            final(self).current() == player,
            final(self).board_of()@ == (BoardState {
                stm: player,
                zobrist: final(self).board_of()@.zobrist,
                ..old(self).board_of()@
            }),
            final(self).statuses() == old(self).statuses(),
            final(self).score_seq() == old(self).score_seq(),
            final(self).history() == old(self).history(),
            final(self).clock() == old(self).clock(),
            final(self).over() == old(self).over(),
    {
        self.current_player = player;
        self.board.set_side_to_move(player);
    }

    /// Set the half-move clock.
    pub fn set_half_move_clock(&mut self, clock: u16)
        ensures
            final(self).clock() == clock,
            final(self).board_of() == old(self).board_of(),
            final(self).statuses() == old(self).statuses(),
            final(self).score_seq() == old(self).score_seq(),
            final(self).current() == old(self).current(),
            final(self).history() == old(self).history(),
            final(self).eliminations() == old(self).eliminations(),
            final(self).over() == old(self).over(),
            final(self).winner_of() == old(self).winner_of(),
            final(self).seed() == old(self).seed(),
    {
        self.half_move_clock = clock;
    }

    /// Replace the recorded position history.
    pub fn set_history(&mut self, hashes: Vec<u64>)
        requires
            hashes@.len() <= MAX_GAME_LENGTH,
            old(self).wf(),
        ensures
            final(self).wf(),
            final(self).history() == hashes@,
            final(self).board_of() == old(self).board_of(),
            final(self).statuses() == old(self).statuses(),
            final(self).score_seq() == old(self).score_seq(),
            final(self).current() == old(self).current(),
            final(self).clock() == old(self).clock(),
            final(self).over() == old(self).over(),
            final(self).winner_of() == old(self).winner_of(),
    {
        self.position_history = hashes;
    }

    // ─── Turn management ────────────────────────────────────────────────────

    /// The next active player after `after`, skipping eliminated and
    /// dead-king-walking players; None if there is none.
    pub fn next_active_player(&self, after: Player) -> (r: Option<Player>)
        ensures
            r == next_active(self.statuses(), after),
    {
        let a = after.next();
        let b = a.next();
        let c = b.next();
        if self.player_status[a.index()] == PlayerStatus::Active {
            Some(a)
        } else if self.player_status[b.index()] == PlayerStatus::Active {
            Some(b)
        } else if self.player_status[c.index()] == PlayerStatus::Active {
            Some(c)
        } else {
            None
        }
    }

    /// The previous player before `before` that is active or dead king
    /// walking (who delivered a mating position).
    pub fn prev_active_or_dkw_player(&self, before: Player) -> (r: Option<Player>)
        ensures
            r == prev_in_play(self.statuses(), before),
    {
        let a = before.prev();
        let b = a.prev();
        let c = b.prev();
        if self.player_status[a.index()] != PlayerStatus::Eliminated {
            Some(a)
        } else if self.player_status[b.index()] != PlayerStatus::Eliminated {
            Some(b)
        } else if self.player_status[c.index()] != PlayerStatus::Eliminated {
            Some(c)
        } else {
            None
        }
    }

    // ─── Position history ───────────────────────────────────────────────────

    /// Record the current position hash, unless the history is full.
    pub fn record_position(&mut self)
        requires
            old(self).wf(),
        ensures
            final(self).wf(),
            final(self).history() == if old(self).history().len() < MAX_GAME_LENGTH {
                old(self).history().push(old(self).board_of()@.zobrist)
            } else {
                old(self).history()
            },
            final(self).board_of() == old(self).board_of(),
            final(self).statuses() == old(self).statuses(),
            final(self).score_seq() == old(self).score_seq(),
            final(self).current() == old(self).current(),
            final(self).eliminations() == old(self).eliminations(),
            final(self).clock() == old(self).clock(),
            final(self).over() == old(self).over(),
            final(self).winner_of() == old(self).winner_of(),
            final(self).seed() == old(self).seed(),
    {
        if self.position_history.len() < MAX_GAME_LENGTH {
            let h = self.board.zobrist_hash();
            self.position_history.push(h);
        }
    }

    /// Whether the current position has occurred three times in the
    /// history.
    pub fn is_threefold_repetition(&self) -> (r: bool)
        requires
            self.wf(),
        ensures
            r == (occurrences(self.history(), self.board_of()@.zobrist) >= 3),
    {
        let current_hash = self.board.zobrist_hash();
        let mut count: u32 = 0;
        let mut i: usize = 0;
        while i < self.position_history.len()
            invariant
                i <= self.position_history@.len(),
                self.position_history@.len() <= MAX_GAME_LENGTH,
                count == occurrences(self.position_history@.take(i as int), current_hash),
                current_hash == self.board@.zobrist,
                count < 3,
            decreases self.position_history@.len() - i,
        {
            proof {
                assert(self.position_history@.take(i + 1).drop_last() =~= self.position_history@.take(
                    i as int,
                ));
            }
            if self.position_history[i] == current_hash {
                count += 1;
                if count >= 3 {
                    proof {
                        assert(count == occurrences(self.position_history@.take(i + 1), current_hash));
                        lemma_occurrences_prefix(self.position_history@, current_hash, i + 1);
                    }
                    return true;
                }
            }
            i += 1;
        }
        proof {
            assert(self.position_history@.take(i as int) =~= self.position_history@);
        }
        false
    }
}

/// Occurrences in a prefix are no more than in the whole.
pub proof fn lemma_occurrences_prefix(h: Seq<u64>, x: u64, i: int)
    requires
        0 <= i <= h.len(),
    ensures
        occurrences(h.take(i), x) <= occurrences(h, x),
    decreases h.len() - i,
{
    if i < h.len() {
        lemma_occurrences_prefix(h, x, i + 1);
        assert(h.take(i + 1).drop_last() =~= h.take(i));
    } else {
        assert(h.take(i) =~= h);
    }
}

// ─── Game end ───────────────────────────────────────────────────────────────

/// The best active player among the first `n` and its score: the last in
/// turn order among those with the highest score.
pub open spec fn best_upto(st: Seq<PlayerStatus>, sc: Seq<u16>, n: int) -> (Option<Player>, int)
    decreases n,
{
    if n <= 0 {
        (None, 0)
    } else {
        let (w, b) = best_upto(st, sc, n - 1);
        if st[n - 1] == PlayerStatus::Active && sc[n - 1] >= b {
            (Some(player_at(n - 1)), sc[n - 1] as int)
        } else {
            (w, b)
        }
    }
}

/// The winner when the game ends by elimination: the highest-scoring
/// active player (the last in turn order on a tie), if any.
pub open spec fn top_scorer(st: Seq<PlayerStatus>, sc: Seq<u16>) -> Option<Player> {
    best_upto(st, sc, 4).0
}

/// The first active player index at or after `i` (4 if none).
pub open spec fn first_active_from(st: Seq<PlayerStatus>, i: int) -> int
    decreases 4 - i,
{
    if i >= 4 {
        4
    } else if st[i] == PlayerStatus::Active {
        i
    } else {
        first_active_from(st, i + 1)
    }
}

/// The scores after a draw: every active player gains the draw points.
pub open spec fn drawn_scores(st: Seq<PlayerStatus>, sc: Seq<u16>) -> Seq<u16> {
    Seq::new(
        4,
        |i: int|
            if st[i] == PlayerStatus::Active {
                (sc[i] + DRAW_POINTS) as u16
            } else {
                sc[i]
            },
    )
}

/// Two game states agree on everything but the board.
pub open spec fn same_but_board(a: GameState, b: GameState) -> bool {
    &&& a.statuses() == b.statuses()
    &&& a.score_seq() == b.score_seq()
    &&& a.current() == b.current()
    &&& a.history() == b.history()
    &&& a.eliminations() == b.eliminations()
    &&& a.clock() == b.clock()
    &&& a.over() == b.over()
    &&& a.winner_of() == b.winner_of()
    &&& a.seed() == b.seed()
}

/// The stored hash after the side to move changes from `from` to `to`.
pub open spec fn stm_changed(z: u64, from: Player, to: Player) -> u64 {
    z ^ stm_key(pidx(from)) ^ stm_key(pidx(to))
}

/// The position `st` with `p` to move.
pub open spec fn with_mover(st: BoardState, p: Player) -> BoardState {
    BoardState { stm: p, zobrist: stm_changed(st.zobrist, st.stm, p), ..st }
}

/// Player `p` has a legal move in position `st` (whoever is to move there).
pub open spec fn can_move(st: BoardState, p: Player) -> bool {
    canon_legal(with_mover(st, p)).len() > 0
}

/// On a board whose king squares agree with its kings, what a player's turn
/// brings depends on the position alone.
proof fn lemma_turn_outcome(b: Board, p: Player)
    requires
        b.wf(),
    ensures
        turn_outcome(legal_in(b, with_mover(b@, p)), b@, p) == if can_move(b@, p) {
            TurnDetermination::HasMoves
        } else if in_check(b@, pidx(p)) {
            TurnDetermination::Checkmate
        } else {
            TurnDetermination::Stalemate
        },
{
    lemma_legal_in_count(b, with_mover(b@, p));
}

/// Eliminating a player keeps the king squares in agreement with the kings.
proof fn lemma_elim_consistent(b0: BoardState, b1: BoardState, p: Player)
    requires
        kings_consistent(b0),
        b0.kings.len() == 4,
        b0.squares.len() == 196,
        b0.kings[pidx(p)] == 255 || b0.kings[pidx(p)] < 196,
        ({
            let k = b0.kings[pidx(p)];
            if k == 255 {
                b1 == b0
            } else {
                &&& b1.squares == if b0.squares[k as int] == own(PieceType::King, p) {
                    b0.squares.update(k as int, None)
                } else {
                    b0.squares
                }
                &&& b1.kings == b0.kings.update(pidx(p), 255u8)
            }
        }),
    ensures
        kings_consistent(b1),
{
    let k = b0.kings[pidx(p)];
    if k != 255 {
        crate::types::lemma_player_cycle(p);
        assert forall|s: int, q: int|
            #![trigger b1.squares[s], b1.kings[q]]
            0 <= s < 196 && 0 <= q < 4 && b1.squares[s] == own(PieceType::King, player_at(q)) implies b1.kings[q]
                == s by {
            if s != k {
                assert(b1.squares[s] == b0.squares[s]);
            }
            assert(b0.squares[s] == own(PieceType::King, player_at(q)));
            assert(b0.kings[q] == s);
            if q == pidx(p) {
                assert(s == k);
            }
        }
    }
}

/// What the first step of the checkmate/stalemate chain did, seen from the
/// end of the chain: the player to move at the start is eliminated, and the
/// previous player still in play scored the checkmate points, or the player
/// itself the stalemate points.
pub open spec fn chain_first_step(a: GameState, b: GameState) -> bool {
    let cur = a.current();
    &&& b.statuses()[pidx(cur)] == PlayerStatus::Eliminated
    &&& in_check(a.board_of()@, pidx(cur)) ==> (prev_in_play(a.statuses(), cur) matches Some(q) ==> b.score_seq()[pidx(
        q,
    )] >= a.score_seq()[pidx(q)] + CHECKMATE_POINTS)
    &&& !in_check(a.board_of()@, pidx(cur)) ==> b.score_seq()[pidx(cur)] >= a.score_seq()[pidx(cur)]
        + STALEMATE_POINTS
}

proof fn lemma_first_step_kept(a: GameState, b: GameState, c: GameState)
    requires
        chain_first_step(a, b),
        progressed(b, c),
    ensures
        chain_first_step(a, c),
{
    let cur = a.current();
    assert(status_rank(c.statuses()[pidx(cur)]) >= status_rank(b.statuses()[pidx(cur)]));
    assert(c.score_seq()[pidx(cur)] >= b.score_seq()[pidx(cur)]);
    if let Some(q) = prev_in_play(a.statuses(), cur) {
        assert(c.score_seq()[pidx(q)] >= b.score_seq()[pidx(q)]);
    }
}

/// What a player's turn brings, from the legal moves it has.
pub open spec fn turn_outcome(moves: Seq<Move>, st: BoardState, p: Player) -> TurnDetermination {
    if moves.len() == 0 {
        if in_check(st, pidx(p)) {
            TurnDetermination::Checkmate
        } else {
            TurnDetermination::Stalemate
        }
    } else {
        TurnDetermination::HasMoves
    }
}

/// The number of opponents of `a` in play whose king `a` attacks, among
/// player indices below `n`.
pub open spec fn kings_checked_upto(g: GameState, a: int, n: int) -> int {
    kings_checked_in(g.board_of()@, g.statuses(), a, n)
}

/// The number of opponents of `a` in play (by `st`) whose king `a` attacks
/// on `b`, among player indices below `n`.
pub open spec fn kings_checked_in(b: BoardState, st: Seq<PlayerStatus>, a: int, n: int) -> int
    decreases n,
{
    if n <= 0 {
        0
    } else {
        let o = n - 1;
        kings_checked_in(b, st, a, n - 1) + if o != a && st[o] != PlayerStatus::Eliminated && b.kings[o] != 255
            && attacked_by(b.squares, b.kings[o] as int, a) {
            1int
        } else {
            0int
        }
    }
}

proof fn lemma_kings_checked_same(b1: BoardState, b2: BoardState, st: Seq<PlayerStatus>, a: int, n: int)
    requires
        b1.squares == b2.squares,
        b1.kings == b2.kings,
    ensures
        kings_checked_in(b1, st, a, n) == kings_checked_in(b2, st, a, n),
    decreases n,
{
    if n > 0 {
        lemma_kings_checked_same(b1, b2, st, a, n - 1);
    }
}

impl GameState {
    /// End the game; the winner is the highest-scoring active player.
    pub fn end_game(&mut self)
        ensures
            final(self).over(),
            final(self).winner_of() == top_scorer(old(self).statuses(), old(self).score_seq()),
            final(self).board_of() == old(self).board_of(),
            final(self).statuses() == old(self).statuses(),
            final(self).score_seq() == old(self).score_seq(),
            final(self).current() == old(self).current(),
            final(self).history() == old(self).history(),
            final(self).eliminations() == old(self).eliminations(),
            final(self).clock() == old(self).clock(),
            final(self).seed() == old(self).seed(),
            final(self).wf() == old(self).wf(),
    {
        self.game_over = true;
        let mut best_player: Option<Player> = None;
        let mut best_score: u16 = 0;
        let mut i: usize = 0;
        while i < 4
            invariant
                i <= 4,
                (best_player, best_score as int) == best_upto(self.player_status@, self.scores@, i as int),
            decreases 4 - i,
        {
            if self.player_status[i] == PlayerStatus::Active && self.scores[i] >= best_score {
                best_score = self.scores[i];
                best_player = Some(Player::from_index(i as u8).unwrap());
            }
            i += 1;
        }
        self.winner = best_player;
    }

    /// Check whether the game ends: a threefold repetition or the 50-move
    /// rule draws (every active player gains the draw points); one or no
    /// active player left ends it; with two left, a lead of 21 points
    /// claims the win.
    pub fn check_game_over(&mut self)
        requires
            old(self).wf(),
            scores_at_most(*old(self), 65514),
        ensures
            final(self).wf(),
            final(self).board_of() == old(self).board_of(),
            final(self).statuses() == old(self).statuses(),
            final(self).current() == old(self).current(),
            final(self).history() == old(self).history(),
            final(self).eliminations() == old(self).eliminations(),
            final(self).clock() == old(self).clock(),
            final(self).seed() == old(self).seed(),
            ({
                let st = old(self).statuses();
                let sc = old(self).score_seq();
                let draw = occurrences(old(self).history(), old(self).board_of()@.zobrist) >= 3
                    || old(self).clock() >= FIFTY_MOVE_THRESHOLD;
                let n = active_count(st);
                let a = first_active_from(st, 0);
                let b = first_active_from(st, a + 1);
                if draw {
                    &&& final(self).over()
                    &&& final(self).score_seq() == drawn_scores(st, sc)
                    &&& final(self).winner_of() == old(self).winner_of()
                } else if n <= 1 {
                    &&& final(self).over()
                    &&& final(self).score_seq() == sc
                    &&& final(self).winner_of() == top_scorer(st, sc)
                } else if n == 2 && sc[a] >= sc[b] + CLAIM_WIN_THRESHOLD {
                    &&& final(self).over()
                    &&& final(self).score_seq() == sc
                    &&& final(self).winner_of() == Some(player_at(a))
                } else if n == 2 && sc[b] >= sc[a] + CLAIM_WIN_THRESHOLD {
                    &&& final(self).over()
                    &&& final(self).score_seq() == sc
                    &&& final(self).winner_of() == Some(player_at(b))
                } else {
                    &&& final(self).over() == old(self).over()
                    &&& final(self).score_seq() == sc
                    &&& final(self).winner_of() == old(self).winner_of()
                }
            }),
    {
        let active_count = self.active_player_count();
        if self.is_threefold_repetition() || self.half_move_clock >= FIFTY_MOVE_THRESHOLD {
            let mut sc = self.scores;
            let st = self.player_status;
            let ghost sc0 = sc@;
            let mut i: usize = 0;
            while i < 4
                invariant
                    i <= 4,
                    forall|j: int| 0 <= j < 4 ==> sc0[j] <= 65514,
                    forall|j: int| 0 <= j < i ==> sc@[j] == drawn_scores(st@, sc0)[j],
                    forall|j: int| i <= j < 4 ==> sc@[j] == sc0[j],
                decreases 4 - i,
            {
                proof {
                    assert(sc@[i as int] == sc0[i as int]);
                    assert(sc0[i as int] <= 65514);
                }
                if st[i] == PlayerStatus::Active {
                    sc[i] = sc[i] + DRAW_POINTS;
                }
                i += 1;
            }
            proof {
                assert(sc@ =~= drawn_scores(st@, sc0));
            }
            self.scores = sc;
            self.game_over = true;
            return ;
        }
        if active_count <= 1 {
            self.end_game();
            return ;
        }
        if active_count == 2 {
            let mut a: usize = 0;
            while a < 4 && self.player_status[a] != PlayerStatus::Active
                invariant
                    a <= 4,
                    first_active_from(self.player_status@, 0) == first_active_from(self.player_status@, a as int),
                decreases 4 - a,
            {
                a += 1;
            }
            proof {
                lemma_two_active(self.player_status@);
            }
            let mut b: usize = a + 1;
            while b < 4 && self.player_status[b] != PlayerStatus::Active
                invariant
                    a < 4,
                    a + 1 <= b <= 4,
                    first_active_from(self.player_status@, a + 1) == first_active_from(self.player_status@, b as int),
                decreases 4 - b,
            {
                b += 1;
            }
            let s1 = self.scores[a];
            let s2 = self.scores[b];
            if s1 >= s2 + CLAIM_WIN_THRESHOLD {
                self.game_over = true;
                self.winner = Some(Player::from_index(a as u8).unwrap());
                return ;
            }
            if s2 >= s1 + CLAIM_WIN_THRESHOLD {
                self.game_over = true;
                self.winner = Some(Player::from_index(b as u8).unwrap());
            }
        }
    }

    /// Eliminate a player: its status becomes eliminated, it joins the
    /// elimination order, and its king (if still on its king square) is
    /// removed and the king square set to the sentinel. Its other pieces
    /// stay on the board as dead pieces.
    pub fn eliminate_player(&mut self, player: Player, reason: EliminationReason)
        requires
            old(self).wf(),
        ensures
            final(self).wf(),
            final(self).statuses() == old(self).statuses().update(
                pidx(player),
                PlayerStatus::Eliminated,
            ),
            final(self).eliminations() == if old(self).eliminations().1 < 4 {
                (
                    old(self).eliminations().0.update(old(self).eliminations().1, Some(player)),
                    old(self).eliminations().1 + 1,
                )
            } else {
                old(self).eliminations()
            },
            ({
                let b0 = old(self).board_of()@;
                let b1 = final(self).board_of()@;
                let k = b0.kings[pidx(player)];
                if k == 255 {
                    b1 == b0
                } else {
                    &&& b1.squares == if b0.squares[k as int] == own(PieceType::King, player) {
                        b0.squares.update(k as int, None)
                    } else {
                        b0.squares
                    }
                    &&& b1.kings == b0.kings.update(pidx(player), 255u8)
                    &&& b1 == (BoardState {
                        squares: b1.squares,
                        kings: b1.kings,
                        zobrist: b1.zobrist,
                        ..b0
                    })
                    &&& crate::board::hash_drift(b1) == crate::board::hash_drift(b0)
                }
            }),
            final(self).score_seq() == old(self).score_seq(),
            final(self).current() == old(self).current(),
            final(self).history() == old(self).history(),
            final(self).clock() == old(self).clock(),
            final(self).over() == old(self).over(),
            final(self).winner_of() == old(self).winner_of(),
            final(self).seed() == old(self).seed(),
    {
        self.player_status[player.index()] = PlayerStatus::Eliminated;
        if self.elimination_count < 4 {
            self.elimination_order[self.elimination_count as usize] = Some(player);
            self.elimination_count += 1;
        }
        proof {
            self.board.lemma_wf();
        }
        let king_sq = self.board.king_square(player);
        if king_sq != ELIMINATED_KING_SENTINEL {
            let sq = Square(king_sq);
            match self.board.piece_at(sq) {
                Some(piece) => {
                    if piece.piece_type == PieceType::King && piece.player == player {
                        self.board.remove_piece(sq);
                    }
                },
                None => {},
            }
            self.board.set_king_eliminated(player);
        }
    }

    /// Start dead king walking for a player (resign or timeout): its pieces
    /// go dead and its king wanders.
    pub fn start_dkw(&mut self, player: Player)
        ensures
            final(self).statuses() == old(self).statuses().update(
                pidx(player),
                PlayerStatus::DeadKingWalking,
            ),
            final(self).board_of() == old(self).board_of(),
            final(self).score_seq() == old(self).score_seq(),
            final(self).current() == old(self).current(),
            final(self).history() == old(self).history(),
            final(self).eliminations() == old(self).eliminations(),
            final(self).clock() == old(self).clock(),
            final(self).over() == old(self).over(),
            final(self).winner_of() == old(self).winner_of(),
            final(self).seed() == old(self).seed(),
            final(self).wf() == old(self).wf(),
    {
        self.player_status[player.index()] = PlayerStatus::DeadKingWalking;
    }

    /// Count the opponents of `attacker` still in play whose king it
    /// attacks.
    pub fn count_kings_checked(&self, attacker: Player) -> (n: usize)
        requires
            self.wf(),
        ensures
            n == kings_checked_upto(*self, pidx(attacker), 4),
            n <= 3,
    {
        proof {
            self.board.lemma_wf();
        }
        let mut count: usize = 0;
        let mut o: usize = 0;
        while o < 4
            invariant
                o <= 4,
                self.board.wf(),
                count == kings_checked_upto(*self, pidx(attacker), o as int),
                count <= o,
                o > pidx(attacker) ==> count < o,
            decreases 4 - o,
        {
            if o != attacker.index() && self.player_status[o] != PlayerStatus::Eliminated {
                let opp = Player::from_index(o as u8).unwrap();
                let king_sq = self.board.king_square(opp);
                if king_sq != ELIMINATED_KING_SENTINEL {
                    proof {
                        self.board.lemma_wf();
                    }
                    if self.board.is_square_attacked_by(Square(king_sq), attacker) {
                        count += 1;
                    }
                }
            }
            o += 1;
        }
        count
    }
}

/// With exactly two active players, the second one found follows the
/// first.
proof fn lemma_two_active(st: Seq<PlayerStatus>)
    requires
        active_count(st) == 2,
    ensures
        first_active_from(st, 0) < 4,
        first_active_from(st, first_active_from(st, 0) + 1) < 4,
        st[first_active_from(st, 0)] == PlayerStatus::Active,
        st[first_active_from(st, first_active_from(st, 0) + 1)] == PlayerStatus::Active,
{
    reveal_with_fuel(active_count_upto, 5);
    reveal_with_fuel(first_active_from, 5);
}

// ─── Legal moves and turn outcomes ─────────────────────────────────────────

/// A dead king's move: a king move that captures nothing and is no castling.
pub open spec fn dkw_pred() -> spec_fn(Move) -> bool {
    |m: Move|
        m.moved() == PieceType::King && m.captured_type() is None && m.flag()
            != crate::moves::MoveFlags::Castle
}

/// One step of the move picker's linear congruential generator.
pub open spec fn lcg_next(x: u64) -> u64 {
    vstd::wrapping::u64_specs::wrapping_add(
        vstd::wrapping::u64_specs::wrapping_mul(x, 6364136223846793005u64),
        1u64,
    )
}

/// The dead king's move picked from the legal moves `ms` with picker state
/// `seed`, and the picker state after.
pub open spec fn dkw_choice(ms: Seq<Move>, seed: u64) -> (Option<Move>, u64) {
    let k = ms.filter(dkw_pred());
    if k.len() == 0 {
        (None, seed)
    } else {
        let s2 = lcg_next(seed);
        (Some(k[((s2 >> 33u64) as int) % (k.len() as int)]), s2)
    }
}

/// Every move of the filter of `s` is a move of `s`.
proof fn lemma_filter_makeable(st: BoardState, s: Seq<Move>, p: spec_fn(Move) -> bool)
    requires
        crate::legal::all_makeable(st, s),
    ensures
        crate::legal::all_makeable(st, s.filter(p)),
{
    broadcast use vstd::seq_lib::group_filter_ensures;

    assert forall|i: int| 0 <= i < s.filter(p).len() implies crate::legal::makeable(
        st,
        #[trigger] s.filter(p)[i],
    ) by {
        let x = s.filter(p)[i];
        assert(s.filter(p).contains(x));
        s.lemma_filter_contains_rev(p, x);
        let j = choose|j: int| 0 <= j < s.len() && s[j] == x;
        assert(crate::legal::makeable(st, s[j]));
    }
}

impl GameState {
    /// The legal moves for `player` on the board, the board left as it
    /// was: its side to move is set to `player` for the generation and put
    /// back.
    fn legal_for(&mut self, player: Player) -> (moves: Vec<Move>)
        requires
            old(self).wf(),
        ensures
            final(self).wf(),
            same_but_board(*final(self), *old(self)),
            final(self).board_of()@ == (BoardState {
                kings: final(self).board_of()@.kings,
                ..old(self).board_of()@
            }),
            crate::legal::all_makeable(with_mover(old(self).board_of()@, player), moves@),
            kings_consistent(old(self).board_of()@) ==> final(self).board_of()@ == old(
                self,
            ).board_of()@ && moves@ == legal_in(
                old(self).board_of(),
                with_mover(old(self).board_of()@, player),
            ),
    {
        let ghost b0 = self.board;
        let saved_stm = self.board.side_to_move();
        self.board.set_side_to_move(player);
        let ghost b1 = self.board;
        proof {
            assert(b1.pieces_view(pidx(player)) == b0.pieces_view(pidx(player)));
            assert(crate::movegen::pseudo_in(b1, b1@) == crate::movegen::pseudo_in(
                b0,
                with_mover(b0@, player),
            ));
        }
        let legal = generate_legal_moves(&mut self.board);
        self.board.set_side_to_move(saved_stm);
        proof {
            let fin = self.board@;
            let b = BoardState { kings: fin.kings, ..b0@ };
            assert(fin == (BoardState { zobrist: fin.zobrist, ..b }));
            assert(crate::board::full_hash(b) == crate::board::full_hash(b0@));
            crate::makemove::lemma_equal_drift_same_hash(fin, b);
        }
        legal
    }

    /// Generate the legal moves of the player to move.
    pub fn legal_moves(&mut self) -> (moves: Vec<Move>)
        requires
            old(self).wf(),
            old(self).statuses()[pidx(old(self).current())] == PlayerStatus::Active,
        ensures
            final(self).wf(),
            same_but_board(*final(self), *old(self)),
            final(self).board_of()@ == (BoardState {
                kings: final(self).board_of()@.kings,
                ..with_mover(old(self).board_of()@, old(self).current())
            }),
            crate::legal::all_makeable(final(self).board_of()@, moves@),
            kings_consistent(old(self).board_of()@) ==> final(self).board_of()@ == with_mover(
                old(self).board_of()@,
                old(self).current(),
            ) && moves@ == legal_in(
                old(self).board_of(),
                with_mover(old(self).board_of()@, old(self).current()),
            ),
    {
        let ghost b0 = self.board;
        let cur = self.current_player;
        self.board.set_side_to_move(cur);
        let ghost b1 = self.board;
        proof {
            assert(b1.pieces_view(pidx(cur)) == b0.pieces_view(pidx(cur)));
            assert(crate::movegen::pseudo_in(b1, b1@) == crate::movegen::pseudo_in(
                b0,
                with_mover(b0@, cur),
            ));
        }
        let moves = generate_legal_moves(&mut self.board);
        proof {
            let fin = self.board@;
            assert(crate::legal::all_makeable(fin, moves@)) by {
                assert forall|i: int| 0 <= i < moves@.len() implies crate::legal::makeable(
                    fin,
                    #[trigger] moves@[i],
                ) by {
                    assert(crate::legal::makeable(b1@, moves@[i]));
                }
            }
        }
        moves
    }

    /// Whether a player whose turn arrives has moves, is checkmated or is
    /// stalemated.
    pub fn determine_status_at_turn(&mut self, player: Player) -> (r: TurnDetermination)
        requires
            old(self).wf(),
        ensures
            final(self).wf(),
            same_but_board(*final(self), *old(self)),
            final(self).board_of()@ == (BoardState {
                kings: final(self).board_of()@.kings,
                ..old(self).board_of()@
            }),
            kings_consistent(old(self).board_of()@) ==> final(self).board_of()@ == old(
                self,
            ).board_of()@ && r == turn_outcome(
                legal_in(old(self).board_of(), with_mover(old(self).board_of()@, player)),
                old(self).board_of()@,
                player,
            ),
    {
        let legal = self.legal_for(player);
        if legal.len() == 0 {
            if self.board.is_in_check(player) {
                TurnDetermination::Checkmate
            } else {
                TurnDetermination::Stalemate
            }
        } else {
            TurnDetermination::HasMoves
        }
    }

    /// Pick a random legal king move for a dead king walking (no captures,
    /// no castling); None if the king is stuck.
    pub fn generate_dkw_move(&mut self, player: Player) -> (r: Option<Move>)
        requires
            old(self).wf(),
        ensures
            final(self).wf(),
            final(self).board_of()@ == (BoardState {
                kings: final(self).board_of()@.kings,
                ..old(self).board_of()@
            }),
            final(self).statuses() == old(self).statuses(),
            final(self).score_seq() == old(self).score_seq(),
            final(self).current() == old(self).current(),
            final(self).history() == old(self).history(),
            final(self).eliminations() == old(self).eliminations(),
            final(self).clock() == old(self).clock(),
            final(self).over() == old(self).over(),
            final(self).winner_of() == old(self).winner_of(),
            r matches Some(m) ==> crate::legal::makeable(
                with_mover(old(self).board_of()@, player),
                m,
            ),
            kings_consistent(old(self).board_of()@) ==> final(self).board_of()@ == old(
                self,
            ).board_of()@ && (r, final(self).seed()) == dkw_choice(
                legal_in(old(self).board_of(), with_mover(old(self).board_of()@, player)),
                old(self).seed(),
            ),
    {
        let legal = self.legal_for(player);
        let (r, seed) = pick_dkw_move(&legal, self.rng_seed);
        proof {
            if r is Some {
                lemma_filter_makeable(with_mover(old(self).board_of()@, player), legal@, dkw_pred());
                let k = legal@.filter(dkw_pred());
                let s2 = lcg_next(old(self).rng_seed);
                let ix = ((s2 >> 33u64) as int) % (k.len() as int);
                assert(crate::legal::makeable(with_mover(old(self).board_of()@, player), k[ix]));
            }
        }
        self.rng_seed = seed;
        r
    }
}

/// Pick the dead king's move from the legal moves.
fn pick_dkw_move(legal: &Vec<Move>, seed: u64) -> (r: (Option<Move>, u64))
    ensures
        r == dkw_choice(legal@, seed),
{
    let ghost pred = dkw_pred();
    let mut king_moves: Vec<Move> = Vec::new();
    let mut i: usize = 0;
    while i < legal.len()
        invariant
            i <= legal@.len(),
            pred == dkw_pred(),
            king_moves@ == legal@.take(i as int).filter(pred),
        decreases legal@.len() - i,
    {
        let m = legal[i];
        proof {
            assert(legal@.take(i + 1) =~= legal@.take(i as int).push(m));
            legal@.take(i as int).lemma_filter_push(m, pred);
        }
        if m.piece_type() == PieceType::King && !m.is_capture() && m.flags()
            != crate::moves::MoveFlags::Castle {
            king_moves.push(m);
        }
        i += 1;
    }
    proof {
        assert(legal@.take(legal@.len() as int) =~= legal@);
    }
    if king_moves.len() == 0 {
        return (None, seed);
    }
    let s2 = lcg(seed);
    let idx = pick_index(s2, king_moves.len());
    (Some(king_moves[idx]), s2)
}

fn lcg(seed: u64) -> (r: u64)
    ensures
        r == lcg_next(seed),
{
    seed.wrapping_mul(6_364_136_223_846_793_005).wrapping_add(1)
}

fn pick_index(s: u64, len: usize) -> (r: usize)
    requires
        len > 0,
    ensures
        r == ((s >> 33u64) as int) % (len as int),
        r < len,
{
    let hi = s >> 33u64;
    assert(hi < 0x8000_0000u64) by (bit_vector)
        requires
            hi == s >> 33u64,
    ;
    (hi as usize) % len
}

// ─── The game loop ──────────────────────────────────────────────────────────

/// How far out of the game a status is: active, dead king walking,
/// eliminated.
pub open spec fn status_rank(s: PlayerStatus) -> int {
    match s {
        PlayerStatus::Active => 0,
        PlayerStatus::DeadKingWalking => 1,
        PlayerStatus::Eliminated => 2,
    }
}

/// `b` is `a` moved forward: no player came back into the game, no score
/// went down, and a finished game stayed finished.
pub open spec fn progressed(a: GameState, b: GameState) -> bool {
    &&& forall|i: int|
        0 <= i < 4 ==> status_rank(#[trigger] b.statuses()[i]) >= status_rank(a.statuses()[i])
    &&& forall|i: int| 0 <= i < 4 ==> #[trigger] b.score_seq()[i] >= a.score_seq()[i]
    &&& a.over() ==> b.over()
}

/// No score of `b` is more than `k` above that of `a`.
pub open spec fn gained_at_most(a: GameState, b: GameState, k: int) -> bool {
    forall|i: int| 0 <= i < 4 ==> #[trigger] b.score_seq()[i] <= a.score_seq()[i] + k
}

/// Every score is at most `k`.
pub open spec fn scores_at_most(g: GameState, k: int) -> bool {
    forall|i: int| 0 <= i < 4 ==> #[trigger] g.score_seq()[i] <= k
}

/// The player to move is active and the board has it to move.
pub open spec fn turn_in_order(g: GameState) -> bool {
    &&& g.statuses()[pidx(g.current())] == PlayerStatus::Active
    &&& g.board_of()@.stm == g.current()
}

proof fn lemma_active_count_drop(st: Seq<PlayerStatus>, p: int, s: PlayerStatus)
    requires
        st.len() == 4,
        0 <= p < 4,
        st[p] == PlayerStatus::Active,
        s != PlayerStatus::Active,
    ensures
        active_count(st.update(p, s)) == active_count(st) - 1,
        active_count(st) >= 1,
{
    reveal_with_fuel(active_count_upto, 5);
}

proof fn lemma_active_count_bounds(st: Seq<PlayerStatus>)
    requires
        st.len() == 4,
    ensures
        0 <= active_count(st) <= 4,
{
    reveal_with_fuel(active_count_upto, 5);
}

/// Whether two states agree on the fields `make_move` needs.
proof fn lemma_applicable_same(a: BoardState, b: BoardState, m: Move)
    requires
        a.squares == b.squares,
        a.stm == b.stm,
        a.ep == b.ep,
        a.ep_player == b.ep_player,
    ensures
        crate::makemove::applicable(a, m) == crate::makemove::applicable(b, m),
{
}

impl GameState {
    /// Check for a checkmate or stalemate chain from the player to move:
    /// while the player to move is active and has no legal move it is
    /// eliminated (checkmate scores for the previous player in play,
    /// stalemate for the player itself) and the turn passes on.
    #[verifier::rlimit(100)]
    pub fn check_elimination_chain(&mut self)
        requires
            old(self).wf(),
            scores_at_most(*old(self), 65535 - 80),
        ensures
            final(self).wf(),
            progressed(*old(self), *final(self)),
            gained_at_most(*old(self), *final(self), 80),
            final(self).history() == old(self).history(),
            final(self).clock() == old(self).clock(),
            turn_in_order(*old(self)) && !final(self).over() ==> turn_in_order(*final(self)),
            forall|i: int|
                0 <= i < 4 && old(self).statuses()[i] != PlayerStatus::Active ==> #[trigger] final(self).statuses()[i]
                    == old(self).statuses()[i],
            final(self).current() != old(self).current() ==> old(self).statuses()[pidx(old(self).current())]
                == PlayerStatus::Active && final(self).statuses()[pidx(old(self).current())]
                == PlayerStatus::Eliminated,
            !old(self).over() && final(self).over() ==> final(self).winner_of() == top_scorer(
                final(self).statuses(),
                final(self).score_seq(),
            ),
            final(self).statuses() == old(self).statuses() ==> final(self).score_seq() == old(self).score_seq(),
            final(self).statuses() == old(self).statuses() ==> final(self).board_of()@ == (BoardState {
                kings: final(self).board_of()@.kings,
                ..old(self).board_of()@
            }),
            old(self).statuses()[pidx(old(self).current())] == PlayerStatus::Active && !final(self).over() ==> active_from(
                final(self).statuses(),
                old(self).current(),
            ) == Some(final(self).current()) || active_count(final(self).statuses()) <= 1,
            kings_consistent(old(self).board_of()@) && !old(self).over() && old(self).statuses()[pidx(old(self).current())]
                == PlayerStatus::Active && can_move(old(self).board_of()@, old(self).current()) ==> final(self).statuses()
                == old(self).statuses() && final(self).current() == old(self).current() && final(self).score_seq()
                == old(self).score_seq() && final(self).board_of()@ == old(self).board_of()@ && !final(self).over(),
            kings_consistent(old(self).board_of()@) && !old(self).over() && old(self).statuses()[pidx(old(self).current())]
                == PlayerStatus::Active && !can_move(old(self).board_of()@, old(self).current()) ==> chain_first_step(
                *old(self),
                *final(self),
            ),
            kings_consistent(old(self).board_of()@) && !final(self).over() && final(self).statuses()[pidx(final(self).current())]
                == PlayerStatus::Active ==> kings_consistent(final(self).board_of()@) && can_move(final(self).board_of()@, final(self).current()),
    {
        proof {
            lemma_active_count_bounds(self.player_status@);
        }
        let ghost a0 = active_count(self.player_status@);
        loop
            invariant
                self.wf(),
                progressed(*old(self), *self),
                self.player_status@.len() == 4,
                0 <= active_count(self.player_status@) <= a0,
                gained_at_most(*old(self), *self, 20 * (a0 - active_count(self.player_status@))),
                a0 <= 4,
                scores_at_most(*old(self), 65535 - 80),
                self.history() == old(self).history(),
                self.clock() == old(self).clock(),
                turn_in_order(*old(self)) && !self.over() ==> (self.statuses()[pidx(self.current())]
                    == PlayerStatus::Active ==> self.board@.stm == self.current()),
                turn_in_order(*old(self)) && !self.over() && active_count(self.player_status@) < a0
                    ==> turn_in_order(*self),
                turn_in_order(*old(self)) && active_count(self.player_status@) == a0
                    ==> self.current() == old(self).current(),
                active_count(self.player_status@) == a0 ==> self.statuses() == old(self).statuses(),
                forall|i: int|
                    0 <= i < 4 && old(self).statuses()[i] != PlayerStatus::Active ==> #[trigger] self.statuses()[i]
                        == old(self).statuses()[i],
                self.current() != old(self).current() ==> old(self).statuses()[pidx(old(self).current())]
                    == PlayerStatus::Active && self.statuses()[pidx(old(self).current())]
                    == PlayerStatus::Eliminated,
                !old(self).over() && self.over() ==> self.winner_of() == top_scorer(
                    self.statuses(),
                    self.score_seq(),
                ),
                self.statuses() == old(self).statuses() ==> self.score_seq() == old(self).score_seq(),
                self.statuses() == old(self).statuses() ==> self.board_of()@ == (BoardState {
                    kings: self.board_of()@.kings,
                    ..old(self).board_of()@
                }),
                old(self).statuses()[pidx(old(self).current())] == PlayerStatus::Active && !self.over() ==> active_from(
                    self.statuses(),
                    old(self).current(),
                ) == Some(self.current()) || active_count(self.statuses()) <= 1,
                kings_consistent(old(self).board_of()@) ==> kings_consistent(self.board_of()@),
                kings_consistent(old(self).board_of()@) && !old(self).over() && old(self).statuses()[pidx(old(self).current())]
                    == PlayerStatus::Active ==> (self.statuses() == old(self).statuses() && self.current() == old(self).current()
                    && self.score_seq() == old(self).score_seq() && self.board_of()@ == old(self).board_of()@ && !self.over())
                    || (!can_move(old(self).board_of()@, old(self).current()) && chain_first_step(*old(self), *self)),
            ensures
                kings_consistent(old(self).board_of()@) && !self.over() && self.statuses()[pidx(self.current())]
                    == PlayerStatus::Active ==> can_move(self.board_of()@, self.current()),
            decreases active_count(self.player_status@),
        {
            if self.game_over {
                break;
            }
            let player = self.current_player;
            if self.player_status[player.index()] != PlayerStatus::Active {
                break;
            }
            let ghost before = *self;
            proof {
                self.lemma_board_wf();
                lemma_turn_outcome(self.board_of(), player);
            }
            let det = self.determine_status_at_turn(player);
            match det {
                TurnDetermination::HasMoves => {
                    break;
                },
                TurnDetermination::Checkmate => {
                    proof {
                        lemma_active_count_drop(self.player_status@, pidx(player), PlayerStatus::Eliminated);
                    }
                    match self.prev_active_or_dkw_player(player) {
                        Some(prev) => {
                            proof {
                                let ac = active_count(self.player_status@);
                                assert(self.scores@[pidx(prev)] <= old(self).scores@[pidx(prev)] + 20 * (a0 - ac));
                                assert(old(self).scores@[pidx(prev)] <= 65535 - 80);
                                assert(20 * (a0 - ac) <= 60);
                            }
                            self.scores[prev.index()] = self.scores[prev.index()] + CHECKMATE_POINTS;
                        },
                        None => {},
                    }
                    proof {
                        lemma_active_count_drop(self.player_status@, pidx(player), PlayerStatus::Eliminated);
                    }
                    let ghost stb = self.statuses();
                    let ghost bb = self.board_of()@;
                    proof {
                        self.board_of().lemma_wf();
                    }
                    self.eliminate_player(player, EliminationReason::Checkmate);
                    proof {
                        if kings_consistent(bb) {
                            lemma_elim_consistent(bb, self.board_of()@, player);
                        }
                    }
                    match self.next_active_player(player) {
                        Some(next) => {
                            self.current_player = next;
                            self.board.set_side_to_move(next);
                            proof {
                                if active_from(stb, old(self).current()) == Some(player) {
                                    lemma_active_from_step(stb, old(self).current(), player, next);
                                }
                            }
                        },
                        None => {
                            self.end_game();
                            break;
                        },
                    }
                },
                TurnDetermination::Stalemate => {
                    proof {
                        lemma_active_count_drop(self.player_status@, pidx(player), PlayerStatus::Eliminated);
                        let ac = active_count(self.player_status@);
                        assert(self.scores@[pidx(player)] <= old(self).scores@[pidx(player)] + 20 * (a0 - ac));
                        assert(old(self).scores@[pidx(player)] <= 65535 - 80);
                        assert(20 * (a0 - ac) <= 60);
                    }
                    self.scores[player.index()] = self.scores[player.index()] + STALEMATE_POINTS;
                    proof {
                        lemma_active_count_drop(self.player_status@, pidx(player), PlayerStatus::Eliminated);
                    }
                    let ghost stb = self.statuses();
                    let ghost bb = self.board_of()@;
                    proof {
                        self.board_of().lemma_wf();
                    }
                    self.eliminate_player(player, EliminationReason::Stalemate);
                    proof {
                        if kings_consistent(bb) {
                            lemma_elim_consistent(bb, self.board_of()@, player);
                        }
                    }
                    match self.next_active_player(player) {
                        Some(next) => {
                            self.current_player = next;
                            self.board.set_side_to_move(next);
                            proof {
                                if active_from(stb, old(self).current()) == Some(player) {
                                    lemma_active_from_step(stb, old(self).current(), player, next);
                                }
                            }
                        },
                        None => {
                            self.end_game();
                            break;
                        },
                    }
                },
            }
        }
    }
}

/// The capture points that making `m` on `st` scores, given the statuses.
pub open spec fn capture_gain(st: BoardState, m: Move, statuses: Seq<PlayerStatus>) -> int {
    match crate::makemove::captured_piece_of(st, m) {
        Some(c) => (if statuses[pidx(c.player)] == PlayerStatus::Active {
            capture_points_of(c.piece_type)
        } else {
            0
        }) + (if c.piece_type == PieceType::King && statuses[pidx(c.player)]
            != PlayerStatus::Eliminated {
            CHECKMATE_POINTS as int
        } else {
            0
        }),
        None => 0,
    }
}

/// What a capture scores for the mover: nothing for a piece of a dead king
/// walking or of an eliminated player (its pieces are dead), the piece's
/// capture points for a piece of an active player; a king of a player still
/// in the game adds the checkmate points.
pub proof fn lemma_capture_gain_by_owner(st: BoardState, m: Move, statuses: Seq<PlayerStatus>)
    ensures
        crate::makemove::captured_piece_of(st, m) is None ==> capture_gain(st, m, statuses) == 0,
        forall|c: crate::types::Piece|
            crate::makemove::captured_piece_of(st, m) == Some(c) && c.piece_type != PieceType::King
                && statuses[pidx(c.player)] != PlayerStatus::Active ==> capture_gain(st, m, statuses) == 0,
        forall|c: crate::types::Piece|
            crate::makemove::captured_piece_of(st, m) == Some(c) && c.piece_type != PieceType::King
                && statuses[pidx(c.player)] == PlayerStatus::Active ==> capture_gain(st, m, statuses)
                == capture_points_of(c.piece_type),
        forall|c: crate::types::Piece|
            crate::makemove::captured_piece_of(st, m) == Some(c) && c.piece_type == PieceType::King
                && statuses[pidx(c.player)] == PlayerStatus::Eliminated ==> capture_gain(st, m, statuses) == 0,
        capture_gain(st, m, statuses) >= 0,
{
}

impl GameState {
    /// Play the dead kings' moves: each dead-king-walking player after the
    /// player to move, in turn order, makes its picked king move, or is
    /// eliminated when its king is stuck.
    pub fn process_dkw_moves(&mut self)
        requires
            old(self).wf(),
        ensures
            final(self).wf(),
            progressed(*old(self), *final(self)),
            final(self).score_seq() == old(self).score_seq(),
            final(self).current() == old(self).current(),
            final(self).history() == old(self).history(),
            final(self).clock() == old(self).clock(),
            final(self).over() == old(self).over(),
            final(self).winner_of() == old(self).winner_of(),
            final(self).board_of()@.stm == old(self).board_of()@.stm,
            forall|i: int|
                0 <= i < 4 && #[trigger] final(self).statuses()[i] != old(self).statuses()[i]
                    ==> old(self).statuses()[i] == PlayerStatus::DeadKingWalking
                    && final(self).statuses()[i] == PlayerStatus::Eliminated,
            (forall|i: int| 0 <= i < 4 ==> old(self).statuses()[i] != PlayerStatus::DeadKingWalking) ==> final(self).board_of()@
                == old(self).board_of()@ && final(self).statuses() == old(self).statuses(),
    {
        let cur = self.current_player;
        let mut candidate = cur.next();
        let mut k: usize = 0;
        while k < 4
            invariant
                self.wf(),
                progressed(*old(self), *self),
                self.score_seq() == old(self).score_seq(),
                self.current() == old(self).current(),
                cur == old(self).current(),
                self.history() == old(self).history(),
                self.clock() == old(self).clock(),
                self.over() == old(self).over(),
                self.winner_of() == old(self).winner_of(),
                self.board@.stm == old(self).board_of()@.stm,
                forall|i: int|
                    0 <= i < 4 && #[trigger] self.statuses()[i] != old(self).statuses()[i]
                        ==> old(self).statuses()[i] == PlayerStatus::DeadKingWalking
                        && self.statuses()[i] == PlayerStatus::Eliminated,
                (forall|i: int| 0 <= i < 4 ==> old(self).statuses()[i] != PlayerStatus::DeadKingWalking) ==> self.board@
                    == old(self).board_of()@ && self.statuses() == old(self).statuses(),
            decreases 4 - k,
        {
            if candidate == cur {
                break;
            }
            if self.player_status[candidate.index()] == PlayerStatus::DeadKingWalking {
                let king_sq = self.board.king_square(candidate);
                if king_sq != ELIMINATED_KING_SENTINEL {
                    let ghost before = self.board@;
                    match self.generate_dkw_move(candidate) {
                        Some(dkw_mv) => {
                            let saved_stm = self.board.side_to_move();
                            self.board.set_side_to_move(candidate);
                            proof {
                                lemma_applicable_same(self.board@, with_mover(before, candidate), dkw_mv);
                            }
                            let _undo = crate::makemove::make_move(&mut self.board, dkw_mv);
                            self.board.set_side_to_move(saved_stm);
                        },
                        None => {
                            self.eliminate_player(candidate, EliminationReason::DkwKingStuck);
                        },
                    }
                }
            }
            candidate = candidate.next();
            k += 1;
        }
    }

    /// Apply a move to the game: score the capture, make the move, score
    /// the check bonus, update the half-move clock and the position
    /// history, play the dead kings' moves, pass the turn to the next active
    /// player, run the checkmate/stalemate chain and check for the end of
    /// the game.
    pub fn apply_move(&mut self, mv: Move)
        requires
            old(self).wf(),
            !old(self).over(),
            old(self).board_of()@.stm == old(self).current(),
            old(self).scores_fit(),
            old(self).clock() < u16::MAX,
            crate::makemove::applicable(old(self).board_of()@, mv),
        ensures
            final(self).wf(),
            progressed(*old(self), *final(self)),
            gained_at_most(*old(self), *final(self), 200),
            final(self).score_seq()[pidx(old(self).current())] >= old(self).score_seq()[pidx(
                old(self).current(),
            )] + capture_gain(old(self).board_of()@, mv, old(self).statuses()),
            ({
                let cp = crate::makemove::captured_piece_of(old(self).board_of()@, mv);
                cp is Some && cp->0.piece_type == PieceType::King ==> final(self).statuses()[pidx(
                    cp->0.player,
                )] == PlayerStatus::Eliminated
            }),
            final(self).clock() == if mv.captured_type() is Some || mv.moved() == PieceType::Pawn {
                0
            } else {
                old(self).clock() + 1
            },
            final(self).history().len() == if old(self).history().len() < MAX_GAME_LENGTH {
                old(self).history().len() + 1
            } else {
                old(self).history().len()
            },
            final(self).history().subrange(0, old(self).history().len() as int) == old(
                self,
            ).history(),
            !final(self).over() ==> turn_in_order(*final(self)),
            !final(self).over() ==> next_active(final(self).statuses(), old(self).current()) == Some(
                final(self).current(),
            ),
            (forall|i: int| 0 <= i < 4 ==> old(self).statuses()[i] != PlayerStatus::DeadKingWalking)
                && final(self).statuses() == old(self).statuses() ==> final(self).board_of()@ == (BoardState {
                kings: final(self).board_of()@.kings,
                stm: final(self).board_of()@.stm,
                zobrist: final(self).board_of()@.zobrist,
                ..crate::makemove::made(old(self).board_of()@, mv)
            }),
            (forall|i: int| 0 <= i < 4 ==> old(self).statuses()[i] != PlayerStatus::DeadKingWalking)
                && final(self).statuses() == old(self).statuses() && !final(self).over() ==> final(self).score_seq()
                == old(self).score_seq().update(
                pidx(old(self).current()),
                (old(self).score_seq()[pidx(old(self).current())] + capture_gain(
                    old(self).board_of()@,
                    mv,
                    old(self).statuses(),
                ) + check_bonus_of(
                    kings_checked_in(
                        crate::makemove::made(old(self).board_of()@, mv),
                        old(self).statuses(),
                        pidx(old(self).current()),
                        4,
                    ),
                )) as u16,
            ),
            kings_consistent(old(self).board_of()@) && crate::legal::makeable(old(self).board_of()@, mv) && (forall|i: int|
                0 <= i < 4 ==> old(self).statuses()[i] != PlayerStatus::DeadKingWalking) && !(crate::makemove::captured_piece_of(
                old(self).board_of()@,
                mv,
            ) matches Some(c) && c.piece_type == PieceType::King) && !final(self).over() ==> can_move(
                final(self).board_of()@,
                final(self).current(),
            ),
            kings_consistent(old(self).board_of()@) && crate::legal::makeable(old(self).board_of()@, mv) && (forall|i: int|
                0 <= i < 4 ==> old(self).statuses()[i] != PlayerStatus::DeadKingWalking) && !(crate::makemove::captured_piece_of(
                old(self).board_of()@,
                mv,
            ) matches Some(c) && c.piece_type == PieceType::King) && (next_active(old(self).statuses(), old(self).current()) matches Some(n) && can_move(
                crate::makemove::made(old(self).board_of()@, mv),
                n,
            )) ==> final(self).statuses() == old(self).statuses() && Some(final(self).current()) == next_active(
                old(self).statuses(),
                old(self).current(),
            ),
    {
        let mover = self.current_player;
        let ghost g0 = *self;
        self.make_and_score(mv);
        let ghost g1 = *self;
        proof {
            let st0 = g0.board_of()@;
            if kings_consistent(st0) && crate::legal::makeable(st0, mv) && g1.statuses() == g0.statuses() {
                g0.board_of().lemma_wf();
                crate::legal::lemma_made_consistent(st0, mv);
                let md = crate::makemove::made(st0, mv);
                assert(g1.board_of()@ == (BoardState { zobrist: g1.board_of()@.zobrist, ..md }));
                assert(kings_consistent(g1.board_of()@));
                assert forall|n: Player| can_move(md, n) == can_move(g1.board_of()@, n) by {
                    let x = with_mover(g1.board_of()@, n);
                    let y = with_mover(md, n);
                    assert(x == (BoardState { zobrist: x.zobrist, ..y }));
                    crate::legal::lemma_canon_hash_free(x, y);
                }
            }
        }
        self.pass_turn(mover);
        proof {
            lemma_progress_chain(g0, g1, *self, 34, 90);
            if self.statuses() == g0.statuses() {
                assert forall|i: int| 0 <= i < 4 implies #[trigger] g1.statuses()[i] == g0.statuses()[i] by {
                    assert(status_rank(g1.statuses()[i]) >= status_rank(g0.statuses()[i]));
                    assert(status_rank(self.statuses()[i]) >= status_rank(g1.statuses()[i]));
                }
                assert(g1.statuses() =~= g0.statuses());
                lemma_kings_checked_same(
                    g1.board_of()@,
                    crate::makemove::made(g0.board_of()@, mv),
                    g0.statuses(),
                    pidx(mover),
                    4,
                );
                if (forall|i: int| 0 <= i < 4 ==> g0.statuses()[i] != PlayerStatus::DeadKingWalking) && !self.over() {
                    assert(self.score_seq() =~= g0.score_seq().update(
                        pidx(mover),
                        (g0.score_seq()[pidx(mover)] + capture_gain(g0.board_of()@, mv, g0.statuses())
                            + check_bonus_of(
                            kings_checked_in(crate::makemove::made(g0.board_of()@, mv), g0.statuses(), pidx(mover), 4),
                        )) as u16,
                    ));
                }
            }
        }
    }

    /// The first half of applying a move: make it, score the capture and
    /// the check bonus, update the half-move clock and record the position.
    fn make_and_score(&mut self, mv: Move)
        requires
            old(self).wf(),
            old(self).scores_fit(),
            old(self).clock() < u16::MAX,
            crate::makemove::applicable(old(self).board_of()@, mv),
        ensures
            final(self).wf(),
            progressed(*old(self), *final(self)),
            gained_at_most(*old(self), *final(self), 34),
            final(self).score_seq()[pidx(old(self).current())] >= old(self).score_seq()[pidx(
                old(self).current(),
            )] + capture_gain(old(self).board_of()@, mv, old(self).statuses()),
            ({
                let cp = crate::makemove::captured_piece_of(old(self).board_of()@, mv);
                cp is Some && cp->0.piece_type == PieceType::King ==> final(self).statuses()[pidx(
                    cp->0.player,
                )] == PlayerStatus::Eliminated
            }),
            final(self).clock() == if mv.captured_type() is Some || mv.moved() == PieceType::Pawn {
                0
            } else {
                old(self).clock() + 1
            },
            final(self).history().len() == if old(self).history().len() < MAX_GAME_LENGTH {
                old(self).history().len() + 1
            } else {
                old(self).history().len()
            },
            final(self).history().subrange(0, old(self).history().len() as int) == old(
                self,
            ).history(),
            final(self).over() == old(self).over(),
            final(self).current() == old(self).current(),
            final(self).board_of()@ == (BoardState {
                zobrist: final(self).board_of()@.zobrist,
                kings: final(self).board_of()@.kings,
                ..crate::makemove::made(old(self).board_of()@, mv)
            }),
            final(self).statuses() == old(self).statuses() || (crate::makemove::captured_piece_of(
                old(self).board_of()@,
                mv,
            ) matches Some(c) && c.piece_type == PieceType::King),
            forall|i: int|
                0 <= i < 4 && i != pidx(old(self).current()) ==> #[trigger] final(self).score_seq()[i] == old(
                    self,
                ).score_seq()[i],
            final(self).score_seq()[pidx(old(self).current())] == old(self).score_seq()[pidx(old(self).current())]
                + capture_gain(old(self).board_of()@, mv, old(self).statuses()) + check_bonus_of(
                kings_checked_upto(*final(self), pidx(old(self).current()), 4),
            ),
            final(self).statuses() == old(self).statuses() ==> final(self).board_of()@.kings
                == crate::makemove::made(old(self).board_of()@, mv).kings,
    {
        let mover = self.current_player;
        proof {
            assert(self.score_seq()[pidx(mover)] <= SCORE_LIMIT);
        }
        let undo = crate::makemove::make_move(&mut self.board, mv);
        match undo.captured_piece {
            Some(captured) => {
                let owner = captured.player.index();
                let pts = if self.player_status[owner] == PlayerStatus::Active {
                    capture_points(captured.piece_type)
                } else {
                    0
                };
                self.scores[mover.index()] = self.scores[mover.index()] + pts;
                if captured.piece_type == PieceType::King && self.player_status[owner]
                    != PlayerStatus::Eliminated {
                    self.board.set_king_eliminated(captured.player);
                    self.scores[mover.index()] = self.scores[mover.index()] + CHECKMATE_POINTS;
                    self.player_status[owner] = PlayerStatus::Eliminated;
                    if self.elimination_count < 4 {
                        self.elimination_order[self.elimination_count as usize] = Some(
                            captured.player,
                        );
                        self.elimination_count += 1;
                    }
                }
            },
            None => {},
        }
        let kings_checked = self.count_kings_checked(mover);
        let bonus = check_bonus_points(kings_checked);
        proof {
            assert(self.scores@[pidx(mover)] <= SCORE_LIMIT + 29);
        }
        self.scores[mover.index()] = self.scores[mover.index()] + bonus;
        if mv.is_capture() || mv.piece_type() == PieceType::Pawn {
            self.half_move_clock = 0;
        } else {
            self.half_move_clock = self.half_move_clock + 1;
        }
        self.record_position();
    }

    /// The second half of applying a move: the dead kings' moves, passing
    /// the turn, the checkmate/stalemate chain and the end-of-game check.
    fn pass_turn(&mut self, mover: Player)
        requires
            old(self).wf(),
            !old(self).over() ==> scores_at_most(*old(self), SCORE_LIMIT + 34),
        ensures
            final(self).wf(),
            progressed(*old(self), *final(self)),
            gained_at_most(*old(self), *final(self), 90),
            final(self).history() == old(self).history(),
            final(self).clock() == old(self).clock(),
            !final(self).over() ==> turn_in_order(*final(self)),
            !final(self).over() ==> next_active(final(self).statuses(), mover) == Some(final(self).current()),
            (forall|i: int| 0 <= i < 4 ==> old(self).statuses()[i] != PlayerStatus::DeadKingWalking)
                && final(self).statuses() == old(self).statuses() ==> final(self).board_of()@ == (BoardState {
                kings: final(self).board_of()@.kings,
                stm: final(self).board_of()@.stm,
                zobrist: final(self).board_of()@.zobrist,
                ..old(self).board_of()@
            }),
            (forall|i: int| 0 <= i < 4 ==> old(self).statuses()[i] != PlayerStatus::DeadKingWalking)
                && final(self).statuses() == old(self).statuses() && !final(self).over() ==> final(self).score_seq()
                == old(self).score_seq(),
            kings_consistent(old(self).board_of()@) && (forall|i: int| 0 <= i < 4 ==> old(self).statuses()[i]
                != PlayerStatus::DeadKingWalking) && !final(self).over() ==> can_move(final(self).board_of()@, final(self).current()),
            kings_consistent(old(self).board_of()@) && (forall|i: int| 0 <= i < 4 ==> old(self).statuses()[i]
                != PlayerStatus::DeadKingWalking) && !old(self).over() && (next_active(old(self).statuses(), mover) matches Some(
                n,
            ) && can_move(old(self).board_of()@, n)) ==> final(self).statuses() == old(self).statuses()
                && Some(final(self).current()) == next_active(old(self).statuses(), mover),
    {
        let ghost g0 = *self;
        self.process_dkw_moves();
        let ghost s1 = self.statuses();
        let ghost gd = *self;
        match self.next_active_player(mover) {
            Some(next) => {
                self.current_player = next;
                self.board.set_side_to_move(next);
                proof {
                    let x = with_mover(self.board_of()@, next);
                    let y = with_mover(gd.board_of()@, next);
                    assert(x == (BoardState { zobrist: x.zobrist, ..y }));
                    crate::legal::lemma_canon_hash_free(x, y);
                }
            },
            None => {
                self.end_game();
            },
        }
        let ghost g1 = *self;
        proof {
            assert(gained_at_most(g0, g1, 0));
        }
        if !self.game_over {
            self.check_elimination_chain();
        }
        let ghost g2 = *self;
        proof {
            lemma_progress_chain(g0, g1, g2, 0, 80);
        }
        if !self.game_over {
            self.check_game_over();
        }
        proof {
            lemma_progress_chain(g0, g2, *self, 80, 10);
            if self.statuses() == g0.statuses() {
                assert forall|i: int| 0 <= i < 4 implies #[trigger] g2.statuses()[i] == g0.statuses()[i] by {
                    assert(status_rank(g2.statuses()[i]) >= status_rank(g1.statuses()[i]));
                    assert(status_rank(self.statuses()[i]) >= status_rank(g2.statuses()[i]));
                }
                assert(g2.statuses() =~= g0.statuses());
                assert(g1.statuses() =~= g0.statuses());
                assert(gd.statuses() =~= g0.statuses());
            }
            if !self.over() {
                let c = g1.current();
                assert(next_active(s1, mover) == Some(c));
                lemma_active_count_bounds(self.statuses());
                lemma_turn_lands(s1, self.statuses(), mover, c, self.current());
            }
        }
    }

    /// Resign a player: it becomes a dead king walking, and if it was to
    /// move the turn passes on (with the checkmate/stalemate chain), then
    /// the end of the game is checked.
    pub fn resign_player(&mut self, player: Player)
        requires
            old(self).wf(),
            old(self).scores_fit(),
        ensures
            final(self).wf(),
            final(self).statuses()[pidx(player)] != PlayerStatus::Active,
            forall|i: int|
                0 <= i < 4 && i != pidx(player) ==> status_rank(#[trigger] final(self).statuses()[i])
                    >= status_rank(old(self).statuses()[i]),
            forall|i: int| 0 <= i < 4 ==> #[trigger] final(self).score_seq()[i] >= old(self).score_seq()[i],
            gained_at_most(*old(self), *final(self), 90),
            old(self).over() ==> final(self).over(),
            final(self).history() == old(self).history(),
            final(self).clock() == old(self).clock(),
            final(self).statuses()[pidx(player)] == PlayerStatus::DeadKingWalking,
            old(self).current() != player ==> final(self).current() == old(self).current(),
            old(self).current() == player ==> ({
                let st1 = old(self).statuses().update(pidx(player), PlayerStatus::DeadKingWalking);
                match next_active(st1, player) {
                    None => final(self).over() && final(self).current() == player,
                    Some(n) => final(self).current() == n || final(self).statuses()[pidx(n)]
                        == PlayerStatus::Eliminated,
                }
            }),
            active_count(final(self).statuses()) <= 1 ==> final(self).over(),
            !old(self).over() && active_count(final(self).statuses()) <= 1 && occurrences(
                final(self).history(),
                final(self).board_of()@.zobrist,
            ) < 3 && final(self).clock() < FIFTY_MOVE_THRESHOLD ==> final(self).winner_of()
                == top_scorer(final(self).statuses(), final(self).score_seq()),
            old(self).current() == player && !final(self).over() ==> next_active(final(self).statuses(), player)
                == Some(final(self).current()),
            old(self).current() != player ==> final(self).statuses() == old(self).statuses().update(
                pidx(player),
                PlayerStatus::DeadKingWalking,
            ),
            old(self).current() == player && kings_consistent(old(self).board_of()@) && !old(self).over() && (next_active(
                old(self).statuses().update(pidx(player), PlayerStatus::DeadKingWalking),
                player,
            ) matches Some(n) && can_move(old(self).board_of()@, n)) ==> final(self).statuses() == old(
                self,
            ).statuses().update(pidx(player), PlayerStatus::DeadKingWalking) && Some(final(self).current())
                == next_active(old(self).statuses().update(pidx(player), PlayerStatus::DeadKingWalking), player),
    {
        self.start_dkw(player);
        let ghost s1 = self.statuses();
        if self.current_player == player {
            match self.next_active_player(player) {
                Some(next) => {
                    let ghost gb = *self;
                    self.current_player = next;
                    self.board.set_side_to_move(next);
                    proof {
                        let x = with_mover(self.board_of()@, next);
                        let y = with_mover(gb.board_of()@, next);
                        assert(x == (BoardState { zobrist: x.zobrist, ..y }));
                        crate::legal::lemma_canon_hash_free(x, y);
                    }
                    let ghost g1 = *self;
                    self.check_elimination_chain();
                    proof {
                        if !self.over() && active_count(self.statuses()) > 1 {
                            lemma_turn_lands(s1, self.statuses(), player, next, self.current());
                        }
                    }
                },
                None => {
                    self.end_game();
                },
            }
        }
        if !self.game_over {
            self.check_game_over();
        }
    }

    /// Time out a player: the same as resigning.
    pub fn timeout_player(&mut self, player: Player)
        requires
            old(self).wf(),
            old(self).scores_fit(),
        ensures
            final(self).wf(),
            final(self).statuses()[pidx(player)] != PlayerStatus::Active,
            forall|i: int|
                0 <= i < 4 && i != pidx(player) ==> status_rank(#[trigger] final(self).statuses()[i])
                    >= status_rank(old(self).statuses()[i]),
            forall|i: int| 0 <= i < 4 ==> #[trigger] final(self).score_seq()[i] >= old(self).score_seq()[i],
            gained_at_most(*old(self), *final(self), 90),
            old(self).over() ==> final(self).over(),
            final(self).history() == old(self).history(),
            final(self).clock() == old(self).clock(),
            final(self).statuses()[pidx(player)] == PlayerStatus::DeadKingWalking,
            old(self).current() != player ==> final(self).current() == old(self).current(),
            active_count(final(self).statuses()) <= 1 ==> final(self).over(),
            !old(self).over() && active_count(final(self).statuses()) <= 1 && occurrences(
                final(self).history(),
                final(self).board_of()@.zobrist,
            ) < 3 && final(self).clock() < FIFTY_MOVE_THRESHOLD ==> final(self).winner_of()
                == top_scorer(final(self).statuses(), final(self).score_seq()),
            old(self).current() == player && !final(self).over() ==> next_active(final(self).statuses(), player)
                == Some(final(self).current()),
            old(self).current() != player ==> final(self).statuses() == old(self).statuses().update(
                pidx(player),
                PlayerStatus::DeadKingWalking,
            ),
            old(self).current() == player && kings_consistent(old(self).board_of()@) && !old(self).over() && (next_active(
                old(self).statuses().update(pidx(player), PlayerStatus::DeadKingWalking),
                player,
            ) matches Some(n) && can_move(old(self).board_of()@, n)) ==> final(self).statuses() == old(
                self,
            ).statuses().update(pidx(player), PlayerStatus::DeadKingWalking) && Some(final(self).current())
                == next_active(old(self).statuses().update(pidx(player), PlayerStatus::DeadKingWalking), player),
    {
        self.resign_player(player);
    }

    /// Handle a player to move without legal moves: run the
    /// checkmate/stalemate chain, the dead kings' moves and the end-of-game
    /// check, each while the game goes on.
    pub fn handle_no_legal_moves(&mut self)
        requires
            old(self).wf(),
            old(self).scores_fit(),
        ensures
            final(self).wf(),
            progressed(*old(self), *final(self)),
            gained_at_most(*old(self), *final(self), 90),
            final(self).history() == old(self).history(),
            final(self).clock() == old(self).clock(),
            old(self).statuses()[pidx(old(self).current())] == PlayerStatus::Active && !final(self).over()
                ==> active_from(final(self).statuses(), old(self).current()) == Some(final(self).current()),
            kings_consistent(old(self).board_of()@) && !old(self).over() && old(self).statuses()[pidx(old(self).current())]
                == PlayerStatus::Active && !can_move(old(self).board_of()@, old(self).current()) ==> chain_first_step(
                *old(self),
                *final(self),
            ),
    {
        let ghost g0 = *self;
        if !self.game_over {
            self.check_elimination_chain();
        }
        let ghost g1 = *self;
        if !self.game_over {
            self.process_dkw_moves();
        }
        let ghost g2 = *self;
        proof {
            assert forall|i: int| 0 <= i < 4 implies (#[trigger] g2.statuses()[i] == PlayerStatus::Active) == (
            g1.statuses()[i] == PlayerStatus::Active) by {
                if g2.statuses()[i] != g1.statuses()[i] {
                    assert(g1.statuses()[i] == PlayerStatus::DeadKingWalking);
                }
            }
            if active_count(g1.statuses()) <= 1 {
                reveal_with_fuel(active_count_upto, 5);
                assert(active_count(g2.statuses()) <= 1);
            }
        }
        if !self.game_over {
            self.check_game_over();
        }
        proof {
            if kings_consistent(g0.board_of()@) && !g0.over() && g0.statuses()[pidx(g0.current())] == PlayerStatus::Active
                && !can_move(g0.board_of()@, g0.current()) {
                lemma_progress_chain(g1, g2, *self, 0, 10);
                lemma_first_step_kept(g0, g1, *self);
            }
        }
    }
}

/// Progress composes, and so do the bounds on what was gained.
pub proof fn lemma_progress_chain(a: GameState, b: GameState, c: GameState, j: int, k: int)
    requires
        progressed(a, b),
        progressed(b, c),
        gained_at_most(a, b, j),
        gained_at_most(b, c, k),
    ensures
        progressed(a, c),
        gained_at_most(a, c, j + k),
{
    assert forall|i: int| 0 <= i < 4 implies status_rank(#[trigger] c.statuses()[i]) >= status_rank(
        a.statuses()[i],
    ) by {
        assert(status_rank(c.statuses()[i]) >= status_rank(b.statuses()[i]));
        assert(status_rank(b.statuses()[i]) >= status_rank(a.statuses()[i]));
    }
    assert forall|i: int| 0 <= i < 4 implies #[trigger] c.score_seq()[i] >= a.score_seq()[i] by {
        assert(c.score_seq()[i] >= b.score_seq()[i]);
        assert(b.score_seq()[i] >= a.score_seq()[i]);
    }
    assert forall|i: int| 0 <= i < 4 implies #[trigger] c.score_seq()[i] <= a.score_seq()[i] + j
        + k by {
        assert(c.score_seq()[i] <= b.score_seq()[i] + k);
        assert(b.score_seq()[i] <= a.score_seq()[i] + j);
    }
}

} // verus!
