use vstd::prelude::*;

use crate::board::{empty_board, handicap_board, stone_at, Board19x19};
use crate::capture::{is_captured, would_be_suicide_spec};
use crate::engine;
use crate::player::Player;
use crate::position::{lemma_pos_at_index, lemma_pos_index_at, pos_at, pos_index, pos_on_board, Position19x19};
use crate::score::{black_score_spec, white_score_spec};
use crate::stone::Stone;

verus! {

broadcast use vstd::seq_lib::group_seq_properties;

/// The player whose turn it is at the given ply count: Black when it
/// is even, White when it is odd.
pub open spec fn player_at(ply: int) -> Player {
    if ply % 2 == 0 {
        Player::Black
    } else {
        Player::White
    }
}

/// A KoState as used by the super ko rule
///
/// Stores a board-layout and the player to move. Such a combination
/// is not allowed to repeat within the same game.
pub struct KoState {
    /// The recorded board layout
    pub board: Board19x19,
    /// The player to move on that board
    pub player: Player,
}

/// The set of possible game phases
#[derive(Copy, PartialEq, Clone, Eq, Structural, Debug)]
pub enum GamePhase {
    /// The game is running.
    ///
    /// The current player is allowed to play, pass and request to
    /// end the game.
    Running,
    /// Black has passed
    ///
    /// If white passes next, the game's state transitions to Ending.
    BlackPassed,
    /// The game is ending.
    ///
    /// White has passed after black passed. It is time to specify
    /// dead stones or to continue playing.
    Ending,
    /// The stored player has requested to end the game.
    ///
    /// The other player has to accept or reject the request.
    EndRequested(Player),
    /// The game ended
    ///
    /// The game ended with (black_score, white_score).
    Ended(usize, usize),
}

/// The state of a game
pub struct GameState {
    /// The current board layout
    pub board: Board19x19,
    /// The current number of plys in the game
    pub ply: u32,
    /// The current game phase
    pub phase: GamePhase,
    /// The positions currently marked as dead
    pub dead_stones: Option<Vec<Position19x19>>,
    /// The set of ko states that are not allowed to repeat
    pub ko_states: Vec<KoState>,
}

/// Possible actions in a game
pub enum Action {
    /// Sets handicap stones.
    ///
    /// Allowed as 1st ply, stones is the number of stones to set
    Handicap { stones: u8 },
    /// The given player passes
    Pass { player: Player },
    /// The given player plays at the given position
    Play { player: Player, at: Position19x19 },
    /// The given player requests the game to end
    ///
    /// The requesting player does also propose the dead stones.
    RequestEnd { player: Player, dead_stones: Vec<Position19x19> },
    /// The given player rejects the request to end the game
    RejectEnd { player: Player },
    /// The given player accepts the request to end the game
    AcceptEnd { player: Player },
}

/// The board after the given player plays at `pos`: the played stone
/// is set and every captured opposing stone is cleared.
pub open spec fn play_board(b: Seq<Stone>, player: Player, pos: Position19x19) -> Seq<Stone> {
    Seq::new(361, |i: int|
        if i == pos_index(pos) {
            player.stone_spec()
        } else if is_captured(b, player, pos, pos_at(i)) {
            Stone::Empty
        } else {
            b[i]
        })
}

/// Whether the board-and-mover pair that a play would produce already
/// stands in the game's ko history. This is positional superko: the
/// whole history is checked, not only the previous position.
pub open spec fn ko_repeat(s: &GameState, pos: Position19x19, player: Player) -> bool {
    exists|i: int|
        0 <= i < s.ko_states@.len() && (#[trigger] s.ko_states@[i]).board@ == play_board(
            s.board@,
            player,
            pos,
        ) && s.ko_states@[i].player == player.other_spec()
}

/// The phase after the given player passes in the given phase.
pub open spec fn pass_phase(phase: GamePhase, player: Player) -> GamePhase {
    if player == Player::Black {
        GamePhase::BlackPassed
    } else if phase == GamePhase::BlackPassed {
        GamePhase::Ending
    } else {
        phase
    }
}

/// Two sequences of ko records with the same layouts and movers.
pub open spec fn kos_alike(a: Seq<KoState>, b: Seq<KoState>) -> bool {
    &&& a.len() == b.len()
    &&& forall|i: int|
        0 <= i < a.len() ==> (#[trigger] a[i]).board@ == b[i].board@ && a[i].player == b[i].player
}

/// The post state's ko history extends the pre state's by one record
/// of the given layout, for the mover after the pre state's ply.
pub open spec fn kos_pushed(pre: &GameState, post: &GameState, board: Seq<Stone>) -> bool {
    &&& post.ko_states@.len() == pre.ko_states@.len() + 1
    &&& (forall|i: int|
        0 <= i < pre.ko_states@.len() ==> (#[trigger] post.ko_states@[i]).board@
            == pre.ko_states@[i].board@ && post.ko_states@[i].player == pre.ko_states@[i].player)
    &&& post.ko_states@.last().board@ == board
    &&& post.ko_states@.last().player == player_at(pre.ply + 1)
}

/// Two dead-stone proposals with the same content.
pub open spec fn dead_alike(
    a: Option<Vec<Position19x19>>,
    b: Option<Vec<Position19x19>>,
) -> bool {
    match (a, b) {
        (Option::None, Option::None) => true,
        (Option::Some(x), Option::Some(y)) => x@ == y@,
        _ => false,
    }
}

impl engine::GameState for GameState {
    /// The board stores the full grid, and the phase cannot outrun the
    /// ply count: a pass has happened before BlackPassed, and two
    /// before the phases of the end-of-game negotiation.
    open spec fn inv(&self) -> bool {
        &&& self.board.wf()
        &&& (self.phase != GamePhase::Running ==> self.ply >= 1)
        &&& (match self.phase {
            GamePhase::Ending => self.ply >= 2,
            GamePhase::EndRequested(_) => self.ply >= 2,
            GamePhase::Ended(_, _) => self.ply >= 2,
            _ => true,
        })
    }

    /// The initial state: an empty board, no plies, a running phase,
    /// no proposal and no ko history.
    open spec fn is_init(&self) -> bool {
        &&& self.board@ == empty_board()
        &&& self.ply == 0
        &&& self.phase == GamePhase::Running
        &&& self.dead_stones is None
        &&& self.ko_states@.len() == 0
    }

    /// States that agree on the board, the ply, the phase, the
    /// proposal and the ko history cannot be told apart.
    open spec fn alike(&self, other: &Self) -> bool {
        &&& self.board@ == other.board@
        &&& self.ply == other.ply
        &&& self.phase == other.phase
        &&& dead_alike(self.dead_stones, other.dead_stones)
        &&& kos_alike(self.ko_states@, other.ko_states@)
    }

    proof fn lemma_init_alike(&self, other: &Self) {
    }

    fn new() -> (r: Self) {
        GameState {
            board: Board19x19::new(),
            ply: 0,
            phase: GamePhase::Running,
            dead_stones: Option::None,
            ko_states: Vec::new(),
        }
    }
}

impl GameState {
    /// Return the current player
    ///
    /// Since it is not possible to make an odd number of turns
    /// or to make an action that does not require an response
    /// from the other player under these rules, the current player
    /// is black if the ply-count is even and white otherwise.
    pub fn current_player(&self) -> (p: Player)
        ensures
            p == player_at(self.ply as int),
    {
        if self.ply % 2 == 0 {
            Player::Black
        } else {
            Player::White
        }
    }

    /// Register the current game state as a ko state
    fn register_ko_state(&mut self)
        requires
            old(self).board.wf(),
        ensures
            final(self).board == old(self).board,
            final(self).ply == old(self).ply,
            final(self).phase == old(self).phase,
            final(self).dead_stones == old(self).dead_stones,
            final(self).ko_states@.len() == old(self).ko_states@.len() + 1,
            forall|i: int|
                0 <= i < old(self).ko_states@.len() ==> final(self).ko_states@[i] == old(
                    self,
                ).ko_states@[i],
            final(self).ko_states@.last().board@ == old(self).board@,
            final(self).ko_states@.last().player == player_at(old(self).ply as int),
    {
        let state = KoState { board: self.board.clone(), player: self.current_player() };
        self.ko_states.push(state);
    }

    /// Check if a ply at position by player would result in ko
    fn would_be_ko(&self, position: &Position19x19, player: &Player) -> (r: bool)
        requires
            self.board.wf(),
            pos_on_board(*position),
        ensures
            r == ko_repeat(self, *position, *player),
    {
        let ko = KoState::from_move(&self.board, position, player);
        let mut found = false;
        let mut i: usize = 0;
        while i < self.ko_states.len()
            invariant
                i <= self.ko_states@.len(),
                ko.board@ == play_board(self.board@, *player, *position),
                ko.player == player.other_spec(),
                found == exists|j: int|
                    0 <= j < i && (#[trigger] self.ko_states@[j]).board@ == ko.board@
                        && self.ko_states@[j].player == ko.player,
            decreases self.ko_states@.len() - i,
        {
            let recorded = &self.ko_states[i];
            if recorded.board == ko.board && recorded.player == ko.player {
                found = true;
            }
            i = i + 1;
        }
        found
    }
}

/// Copies a vector of positions.
fn copy_positions(v: &Vec<Position19x19>) -> (r: Vec<Position19x19>)
    ensures
        r@ == v@,
{
    let mut r: Vec<Position19x19> = Vec::new();
    let mut i: usize = 0;
    while i < v.len()
        invariant
            i <= v@.len(),
            r@.len() == i,
            forall|j: int| 0 <= j < i ==> r@[j] == v@[j],
        decreases v@.len() - i,
    {
        r.push(v[i]);
        i = i + 1;
    }
    proof {
        assert(r@ =~= v@);
    }
    r
}

impl Board19x19 {
    /// Performs a play on the board: sets the stone and clears every
    /// captured opposing stone.
    #[verifier::loop_isolation(false)]
    fn apply_play(&mut self, player: &Player, position: &Position19x19)
        requires
            old(self).wf(),
            pos_on_board(*position),
        ensures
            final(self).wf(),
            final(self)@ == play_board(old(self)@, *player, *position),
    {
        let ghost b0 = self@;
        let captured_stones = self.would_be_captured(player, position);
        proof {
            lemma_pos_index_at(*position);
            assert forall|k: int|
                0 <= k < captured_stones@.len() implies pos_on_board(
                #[trigger] captured_stones@[k],
            ) && pos_index(captured_stones@[k]) != pos_index(*position) by {
                assert(captured_stones@.contains(captured_stones@[k]));
                let p = captured_stones@[k];
                assert(is_captured(b0, *player, *position, p));
                lemma_pos_index_at(p);
                if pos_index(p) == pos_index(*position) {
                    assert(p == *position);
                    assert(crate::group::group_liberty(b0, p, *position));
                    assert(stone_at(b0, *position) == Stone::Empty);
                }
            }
        }
        self.set(position, &player.stone());
        let mut i: usize = 0;
        while i < captured_stones.len()
            invariant
                i <= captured_stones@.len(),
                self.wf(),
                forall|j: int|
                    0 <= j < 361 ==> self@[j] == (if j == pos_index(*position) {
                        player.stone_spec()
                    } else if (exists|k: int|
                        0 <= k < i && pos_index(#[trigger] captured_stones@[k]) == j) {
                        Stone::Empty
                    } else {
                        b0[j]
                    }),
            decreases captured_stones@.len() - i,
        {
            let ghost before = self@;
            self.set(&captured_stones[i], &Stone::Empty);
            proof {
                assert forall|j: int|
                    0 <= j < 361 implies self@[j] == (if j == pos_index(*position) {
                        player.stone_spec()
                    } else if (exists|k: int|
                        0 <= k < i + 1 && pos_index(#[trigger] captured_stones@[k]) == j) {
                        Stone::Empty
                    } else {
                        b0[j]
                    }) by {
                    if j == pos_index(captured_stones@[i as int]) {
                        assert(pos_index(captured_stones@[i as int]) == j);
                    } else {
                        assert(self@[j] == before[j]);
                        if exists|k: int|
                            0 <= k < i + 1 && pos_index(#[trigger] captured_stones@[k]) == j {
                            let k = choose|k: int|
                                0 <= k < i + 1 && pos_index(#[trigger] captured_stones@[k]) == j;
                            assert(k < i);
                        }
                    }
                }
            }
            i = i + 1;
        }
        proof {
            assert forall|j: int| 0 <= j < 361 implies self@[j] == play_board(
                b0,
                *player,
                *position,
            )[j] by {
                lemma_pos_at_index(j);
                if j != pos_index(*position) {
                    assert((exists|k: int|
                        0 <= k < captured_stones@.len() && pos_index(
                            #[trigger] captured_stones@[k],
                        ) == j) == is_captured(b0, *player, *position, pos_at(j))) by {
                        if exists|k: int|
                            0 <= k < captured_stones@.len() && pos_index(
                                #[trigger] captured_stones@[k],
                            ) == j {
                            let k = choose|k: int|
                                0 <= k < captured_stones@.len() && pos_index(
                                    #[trigger] captured_stones@[k],
                                ) == j;
                            let p = captured_stones@[k];
                            assert(captured_stones@.contains(p));
                            assert(is_captured(b0, *player, *position, p));
                            lemma_pos_index_at(p);
                            assert(pos_at(j) == p);
                        }
                        if is_captured(b0, *player, *position, pos_at(j)) {
                            assert(captured_stones@.contains(pos_at(j)));
                            let k = choose|k: int|
                                0 <= k < captured_stones@.len() && captured_stones@[k] == pos_at(
                                    j,
                                );
                            assert(pos_index(captured_stones@[k]) == j);
                        }
                    }
                }
            }
            assert(self@ =~= play_board(b0, *player, *position));
        }
    }
}

impl KoState {
    /// Constructs a KoState from a board, position and player
    fn from_move(board: &Board19x19, position: &Position19x19, player: &Player) -> (k: KoState)
        requires
            board.wf(),
            pos_on_board(*position),
        ensures
            k.board@ == play_board(board@, *player, *position),
            k.player == player.other_spec(),
    {
        let mut board_copy = board.clone();
        board_copy.apply_play(player, position);
        KoState { board: board_copy, player: player.other() }
    }
}

impl engine::Action for Action {
    type GameState = GameState;

    /// The guard of each action, as the rules state them.
    open spec fn test_spec(&self, state: &GameState) -> bool {
        match self {
            // Handicap stones are only allowed as the first ply.
            Action::Handicap { stones } => state.ply == 0,
            // Passing is for the current player allowed if the game is
            // still running or black just passed.
            Action::Pass { player } => {
                &&& (state.phase == GamePhase::Running || state.phase == GamePhase::BlackPassed)
                &&& *player == player_at(state.ply as int)
                &&& state.ply < u32::MAX
            },
            // A play is only allowed on the board and at an empty
            // intersection if it is the player's turn and neither
            // suicide nor ko.
            Action::Play { player, at } => {
                &&& pos_on_board(*at)
                &&& stone_at(state.board@, *at) == Stone::Empty
                &&& !would_be_suicide_spec(state.board@, *at, *player)
                &&& !ko_repeat(state, *at, *player)
                &&& (state.phase == GamePhase::Running || state.phase == GamePhase::BlackPassed)
                &&& *player == player_at(state.ply as int)
                &&& state.ply < u32::MAX
            },
            // Requesting the end of the game is allowed if both players
            // passed, with every proposed dead stone standing on the
            // board.
            Action::RequestEnd { player, dead_stones } => {
                &&& state.phase == GamePhase::Ending
                &&& forall|j: int|
                    0 <= j < dead_stones@.len() ==> pos_on_board(#[trigger] dead_stones@[j])
                        && stone_at(state.board@, dead_stones@[j]) != Stone::Empty
            },
            // Rejecting the end of the game is allowed if the other
            // player requested ending the game.
            Action::RejectEnd { player } => {
                state.phase matches GamePhase::EndRequested(q) && q != *player
            },
            // Accepting the end of the game is allowed if the other
            // player requested ending the game.
            Action::AcceptEnd { player } => {
                state.phase matches GamePhase::EndRequested(q) && q != *player
            },
        }
    }

    /// The effect of each action, stated over the views of every field
    /// of the state.
    open spec fn step(&self, pre: &GameState, post: &GameState) -> bool {
        match self {
            Action::Handicap { stones } => {
                &&& post.board@ == handicap_board(pre.board@, *stones)
                &&& post.ply == pre.ply + 1
                &&& post.phase == pre.phase
                &&& dead_alike(post.dead_stones, pre.dead_stones)
                &&& kos_pushed(pre, post, post.board@)
            },
            Action::Pass { player } => {
                &&& post.board@ == pre.board@
                &&& post.ply == pre.ply + 1
                &&& post.phase == pass_phase(pre.phase, *player)
                &&& dead_alike(post.dead_stones, pre.dead_stones)
                &&& kos_pushed(pre, post, pre.board@)
            },
            Action::Play { player, at } => {
                &&& post.board@ == play_board(pre.board@, *player, *at)
                &&& post.ply == pre.ply + 1
                &&& post.phase == GamePhase::Running
                &&& dead_alike(post.dead_stones, pre.dead_stones)
                &&& kos_pushed(pre, post, post.board@)
            },
            Action::RequestEnd { player, dead_stones } => {
                &&& post.board@ == pre.board@
                &&& post.ply == pre.ply
                &&& post.phase == GamePhase::EndRequested(*player)
                &&& (match post.dead_stones {
                    Option::Some(v) => v@ == dead_stones@,
                    Option::None => false,
                })
                &&& kos_alike(post.ko_states@, pre.ko_states@)
            },
            Action::RejectEnd { player } => {
                &&& post.board@ == pre.board@
                &&& post.ply == pre.ply
                &&& post.phase == GamePhase::Ending
                &&& post.dead_stones is None
                &&& kos_alike(post.ko_states@, pre.ko_states@)
            },
            Action::AcceptEnd { player } => {
                &&& post.board@ == pre.board@
                &&& post.ply == pre.ply
                &&& (post.phase matches GamePhase::Ended(bs, ws) && bs == black_score_spec(
                    pre.board@,
                ) && ws == white_score_spec(pre.board@))
                &&& dead_alike(post.dead_stones, pre.dead_stones)
                &&& kos_alike(post.ko_states@, pre.ko_states@)
            },
        }
    }

    proof fn lemma_test_alike(&self, s1: &GameState, s2: &GameState) {
        match self {
            Action::Play { player, at } => {
                assert(ko_repeat(s1, *at, *player) == ko_repeat(s2, *at, *player)) by {
                    if ko_repeat(s1, *at, *player) {
                        let i = choose|i: int|
                            0 <= i < s1.ko_states@.len() && (#[trigger] s1.ko_states@[i]).board@
                                == play_board(s1.board@, *player, *at) && s1.ko_states@[i].player
                                == player.other_spec();
                        assert((s2.ko_states@[i]).board@ == play_board(s2.board@, *player, *at)
                            && s2.ko_states@[i].player == player.other_spec());
                    }
                    if ko_repeat(s2, *at, *player) {
                        let i = choose|i: int|
                            0 <= i < s2.ko_states@.len() && (#[trigger] s2.ko_states@[i]).board@
                                == play_board(s2.board@, *player, *at) && s2.ko_states@[i].player
                                == player.other_spec();
                        assert((s1.ko_states@[i]).board@ == play_board(s1.board@, *player, *at)
                            && s1.ko_states@[i].player == player.other_spec());
                    }
                }
            },
            _ => {},
        }
    }

    proof fn lemma_step_alike(
        &self,
        pre1: &GameState,
        post1: &GameState,
        pre2: &GameState,
        post2: &GameState,
    ) {
        match self {
            Action::Handicap { stones } => {
                lemma_kos_pushed_alike(pre1, post1, pre2, post2);
            },
            Action::Pass { player } => {
                lemma_kos_pushed_alike(pre1, post1, pre2, post2);
            },
            Action::Play { player, at } => {
                lemma_kos_pushed_alike(pre1, post1, pre2, post2);
            },
            _ => {},
        }
    }

    fn test(&self, state: &GameState) -> (r: bool) {
        match self {
            Action::Handicap { stones: _stones } => state.ply == 0,
            Action::Pass { player } => {
                let normal_pass = match state.phase {
                    GamePhase::Running => true,
                    _ => false,
                };
                let finishing_pass = match state.phase {
                    GamePhase::BlackPassed => true,
                    _ => false,
                };
                let my_turn = *player == state.current_player();
                (normal_pass || finishing_pass) && my_turn && state.ply < u32::MAX
            },
            Action::Play { player, at: position } => {
                let valid_position = state.board.on_board(position) && state.board.at(position)
                    == Stone::Empty;
                if !valid_position {
                    false
                } else {
                    let valid_move = !state.board.would_be_suicide(position, player)
                        && !state.would_be_ko(position, player);
                    let valid_phase = match state.phase {
                        GamePhase::Running => true,
                        GamePhase::BlackPassed => true,
                        _ => false,
                    };
                    let my_turn = *player == state.current_player();
                    valid_move && valid_phase && my_turn && state.ply < u32::MAX
                }
            },
            Action::RequestEnd { player: _player, dead_stones } => {
                let valid_phase = match state.phase {
                    GamePhase::Ending => true,
                    _ => false,
                };
                let mut valid_dead_stones = true;
                let mut i: usize = 0;
                while i < dead_stones.len()
                    invariant
                        i <= dead_stones@.len(),
                        state.board.wf(),
                        valid_dead_stones == forall|j: int|
                            0 <= j < i ==> pos_on_board(#[trigger] dead_stones@[j]) && stone_at(
                                state.board@,
                                dead_stones@[j],
                            ) != Stone::Empty,
                    decreases dead_stones@.len() - i,
                {
                    let pos = &dead_stones[i];
                    if !(state.board.on_board(pos) && state.board.at(pos) != Stone::Empty) {
                        valid_dead_stones = false;
                    }
                    i = i + 1;
                }
                valid_phase && valid_dead_stones
            },
            Action::RejectEnd { player } => {
                match state.phase {
                    GamePhase::EndRequested(requesting_player) => requesting_player != *player,
                    _ => false,
                }
            },
            Action::AcceptEnd { player } => {
                match state.phase {
                    GamePhase::EndRequested(requesting_player) => requesting_player != *player,
                    _ => false,
                }
            },
        }
    }

    fn execute(&self, state: &mut GameState) {
        match self {
            Action::Handicap { stones } => {
                state.board.set_handicap(*stones);
                state.ply = state.ply + 1;
                state.register_ko_state();
            },
            Action::Pass { player } => {
                if *player == Player::Black {
                    state.phase = GamePhase::BlackPassed;
                } else if *player == Player::White && state.phase == GamePhase::BlackPassed {
                    state.phase = GamePhase::Ending;
                }
                state.ply = state.ply + 1;
                state.register_ko_state();
            },
            Action::Play { player, at: position } => {
                state.board.apply_play(player, position);
                state.ply = state.ply + 1;
                state.phase = GamePhase::Running;
                state.register_ko_state();
            },
            Action::RequestEnd { player, dead_stones } => {
                state.phase = GamePhase::EndRequested(*player);
                state.dead_stones = Option::Some(copy_positions(dead_stones));
            },
            Action::RejectEnd { player: _player } => {
                state.phase = GamePhase::Ending;
                state.dead_stones = Option::None;
            },
            Action::AcceptEnd { player: _player } => {
                let (score_black, score_white) = state.board.area_scoring();
                state.phase = GamePhase::Ended(score_black, score_white);
            },
        }
    }
}

/// Ko histories that grew by one record of the same layout, out of
/// alike states, stay alike.
proof fn lemma_kos_pushed_alike(
    pre1: &GameState,
    post1: &GameState,
    pre2: &GameState,
    post2: &GameState,
)
    requires
        kos_alike(pre1.ko_states@, pre2.ko_states@),
        post1.ko_states@.len() == pre1.ko_states@.len() + 1,
        post2.ko_states@.len() == pre2.ko_states@.len() + 1,
        forall|i: int|
            0 <= i < pre1.ko_states@.len() ==> (#[trigger] post1.ko_states@[i]).board@
                == pre1.ko_states@[i].board@ && post1.ko_states@[i].player
                == pre1.ko_states@[i].player,
        forall|i: int|
            0 <= i < pre2.ko_states@.len() ==> (#[trigger] post2.ko_states@[i]).board@
                == pre2.ko_states@[i].board@ && post2.ko_states@[i].player
                == pre2.ko_states@[i].player,
        post1.ko_states@.last().board@ == post2.ko_states@.last().board@,
        post1.ko_states@.last().player == post2.ko_states@.last().player,
    ensures
        kos_alike(post1.ko_states@, post2.ko_states@),
{
    assert forall|i: int|
        0 <= i < post1.ko_states@.len() implies (#[trigger] post1.ko_states@[i]).board@
        == post2.ko_states@[i].board@ && post1.ko_states@[i].player
        == post2.ko_states@[i].player by {
        if i < pre1.ko_states@.len() {
            assert(post1.ko_states@[i].board@ == pre1.ko_states@[i].board@);
            assert(post2.ko_states@[i].board@ == pre2.ko_states@[i].board@);
        } else {
            assert(post1.ko_states@[i] == post1.ko_states@.last());
            assert(post2.ko_states@[i] == post2.ko_states@.last());
        }
    }
}

/// The phase machine of passing: Black passing in a running game
/// moves it to BlackPassed; White passing after that moves it to
/// Ending; White passing in a running game changes nothing.
pub proof fn lemma_pass_sequencing()
    ensures
        pass_phase(GamePhase::Running, Player::Black) == GamePhase::BlackPassed,
        pass_phase(GamePhase::BlackPassed, Player::White) == GamePhase::Ending,
        pass_phase(GamePhase::Running, Player::White) == GamePhase::Running,
{
}

/// Any legal Play resets the phase to Running, cancelling a pending
/// pass.
pub proof fn lemma_play_resets_phase(a: Action, pre: GameState, post: GameState)
    requires
        a matches Action::Play { .. },
        engine::Action::step(&a, &pre, &post),
    ensures
        post.phase == GamePhase::Running,
{
}

/// The guards of the end-of-game negotiation: a request is possible
/// exactly in the Ending phase, and accepting or rejecting answers
/// only the other player's open request.
pub proof fn lemma_end_negotiation(s: GameState, p: Player, dead: Vec<Position19x19>)
    ensures
        engine::Action::test_spec(&(Action::RejectEnd { player: p }), &s) == (s.phase matches
            GamePhase::EndRequested(q) && q != p),
        engine::Action::test_spec(&(Action::AcceptEnd { player: p }), &s) == (s.phase matches
            GamePhase::EndRequested(q) && q != p),
        engine::Action::test_spec(&(Action::RequestEnd { player: p, dead_stones: dead }), &s)
            ==> s.phase == GamePhase::Ending,
{
}

/// The superko rule: a play whose resulting board and next mover
/// already stand anywhere in the game's history is not legal, however
/// many plies back the repetition lies.
pub proof fn lemma_superko_rejects(s: GameState, player: Player, at: Position19x19)
    requires
        ko_repeat(&s, at, player),
    ensures
        !engine::Action::test_spec(&(Action::Play { player, at }), &s),
{
}

/// Ended is terminal: in a reachable state whose phase carries the
/// final scores, no action passes its test.
pub proof fn lemma_ended_terminal(s: GameState, a: Action)
    requires
        engine::GameState::inv(&s),
        s.phase matches GamePhase::Ended(_, _),
    ensures
        !engine::Action::test_spec(&a, &s),
{
}

} // verus!
