use vstd::prelude::*;

use crate::generic::{jump_view, wrap, GameResult, GenericGame, MoveData, Player, Position, SubgameState};

verus! {

/// The smallest game: any move wins it for the player to move.
#[derive(Clone, Debug)]
pub struct DummyGame<P: Player> {
    player: P,
}

impl<P: Player> DummyGame<P> {
    /// Handing the move over changes nothing but the mover.
    pub proof fn lemma_with_player(self, p: P)
        ensures
            self.with_player(p).mover() == p,
    {
    }

    pub fn new(player: P) -> (r: Self)
        ensures
            r.mover() == player,
    {
        DummyGame { player }
    }
}

impl<P: Player> GenericGame<P> for DummyGame<P> {
    type Move = bool;

    open spec fn wf(&self) -> bool {
        true
    }

    closed spec fn mover(&self) -> P {
        self.player
    }

    open spec fn valid(&self, m: bool) -> bool {
        true
    }

    open spec fn moves(&self) -> Seq<bool> {
        seq![true]
    }

    open spec fn progress(&self) -> nat {
        0
    }

    /// Any move wins the game for the mover and hands the move on; it
    /// reports no cells.
    open spec fn moved(&self, m: bool, after: Self, r: MoveData<P>) -> bool {
        &&& r.result == GameResult::Won(self.mover())
        &&& after.mover() == self.mover().next_spec()
        &&& r.next_player == after.mover()
        &&& jump_view(r.jump) is None
    }

    closed spec fn with_player(&self, p: P) -> Self {
        DummyGame { player: p }
    }

    proof fn lemma_moves(&self) {
    }

    fn create(player: P, pos: Position) -> (r: Self) {
        Self::new(player)
    }

    fn mov(&mut self, m: bool) -> (r: MoveData<P>) {
        let player = self.player;
        self.set_player(player.next_player());
        MoveData { jump: None, next_player: self.player, result: GameResult::Won(player) }
    }

    fn get_valid_moves(&self) -> (r: Vec<bool>) {
        vec![true]
    }

    fn is_valid_move(&self, m: &bool) -> (r: bool) {
        true
    }

    fn set_player(&mut self, player: P) {
        self.player = player;
    }

    fn get_player(&self) -> (r: P) {
        self.player
    }

    fn duplicate(&self) -> (r: Self) {
        DummyGame { player: self.player }
    }
}

/// A game wrapped in one cell state: it keeps the inner game's outcome once
/// the inner game is over.
pub struct SuperDummyGame<T: GenericGame<P>, P: Player> {
    game: SubgameState<T, P>,
}

impl<T: GenericGame<P>, P: Player> SuperDummyGame<T, P> {
    pub closed spec fn state(&self) -> SubgameState<T, P> {
        self.game
    }

    /// The game that holds the cell state `s`.
    pub closed spec fn from_state(s: SubgameState<T, P>) -> Self {
        SuperDummyGame { game: s }
    }

    pub broadcast proof fn lemma_from_state(s: SubgameState<T, P>)
        ensures
            (#[trigger] Self::from_state(s)).state() == s,
    {
    }

    pub fn new(game: T) -> (r: Self)
        ensures
            r.state() == SubgameState::Playing(game),
    {
        SuperDummyGame { game: SubgameState::Playing(game) }
    }

    pub fn get_game_ref(&self) -> (r: &SubgameState<T, P>)
        ensures
            *r == self.state(),
    {
        &self.game
    }
}

impl<T: GenericGame<P>, P: Player> GenericGame<P> for SuperDummyGame<T, P> {
    type Move = T::Move;

    open spec fn wf(&self) -> bool {
        self.state().wf()
    }

    open spec fn mover(&self) -> P {
        match self.state() {
            SubgameState::Won(_, g) => g.mover(),
            SubgameState::Draw(g) => g.mover(),
            SubgameState::Playing(g) => g.mover(),
            SubgameState::Empty => arbitrary(),
        }
    }

    open spec fn valid(&self, m: T::Move) -> bool {
        match self.state() {
            SubgameState::Playing(g) => g.valid(m),
            _ => false,
        }
    }

    open spec fn moves(&self) -> Seq<T::Move> {
        match self.state() {
            SubgameState::Playing(g) => g.moves(),
            _ => Seq::empty(),
        }
    }

    open spec fn progress(&self) -> nat {
        self.state().progress()
    }

    /// A move is the inner game's own move, and the cell keeps the moved
    /// game under its outcome.
    open spec fn moved(&self, m: T::Move, after: Self, r: MoveData<P>) -> bool {
        match self.state() {
            SubgameState::Playing(g) => exists|g2: T|
                #[trigger] g.moved(m, g2, r) && after.state() == wrap(r.result, g2),
            _ => false,
        }
    }

    /// A finished game keeps its last mover.
    open spec fn with_player(&self, p: P) -> Self {
        match self.state() {
            SubgameState::Playing(g) => SuperDummyGame::from_state(SubgameState::Playing(g.with_player(p))),
            _ => *self,
        }
    }

    proof fn lemma_moves(&self) {
        if let SubgameState::Playing(g) = self.state() {
            g.lemma_moves();
        }
    }

    fn create(player: P, pos: Position) -> (r: Self) {
        Self::new(T::create(player, pos))
    }

    fn mov(&mut self, m: T::Move) -> (r: MoveData<P>)
    {
        let mut state = SubgameState::Empty;
        std::mem::swap(&mut self.game, &mut state);
        match state {
            SubgameState::Playing(mut game) => {
                let mdata = game.mov(m);
                match mdata.result {
                    GameResult::Won(player) => {
                        self.game = SubgameState::Won(player, game);
                    },
                    GameResult::Draw => {
                        self.game = SubgameState::Draw(game);
                    },
                    GameResult::Incomplete => {
                        self.game = SubgameState::Playing(game);
                    },
                }
                assert(self.game == wrap(mdata.result, game));
                mdata
            },
            _ => vstd::pervasive::unreached(),
        }
    }

    fn get_valid_moves(&self) -> (r: Vec<T::Move>) {
        match &self.game {
            SubgameState::Playing(game) => game.get_valid_moves(),
            _ => Vec::new(),
        }
    }

    fn is_valid_move(&self, m: &T::Move) -> (r: bool) {
        match &self.game {
            SubgameState::Playing(game) => game.is_valid_move(m),
            _ => false,
        }
    }

    /// A finished game keeps its last mover.
    fn set_player(&mut self, player: P) {
        proof {
            Self::lemma_from_state(self.game);
        }
        match &mut self.game {
            SubgameState::Playing(game) => game.set_player(player),
            _ => {},
        }
    }

    fn get_player(&self) -> (r: P) {
        match &self.game {
            SubgameState::Won(_, game) => game.get_player(),
            SubgameState::Draw(game) => game.get_player(),
            SubgameState::Playing(game) => game.get_player(),
            SubgameState::Empty => vstd::pervasive::unreached(),
        }
    }

    fn duplicate(&self) -> (r: Self) {
        SuperDummyGame { game: self.game.duplicate() }
    }
}

} // verus!
