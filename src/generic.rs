use vstd::prelude::*;

verus! {

/// A cell of a 3x3 board: a linear id in `0..9` and its column/row.
#[derive(Clone, Copy, Debug, PartialEq, Eq, Structural)]
pub struct Position {
    cid: u8,
    x: u8,
    y: u8,
}

impl Position {
    /// The linear id of the cell, `y * 3 + x`.
    pub closed spec fn id(self) -> int {
        self.cid as int
    }

    pub closed spec fn col(self) -> int {
        self.x as int
    }

    pub closed spec fn row(self) -> int {
        self.y as int
    }

    /// Every position ever built lies on the board, with consistent coordinates.
    pub closed spec fn wf(self) -> bool {
        &&& self.cid < 9
        &&& self.x == self.cid % 3
        &&& self.y == self.cid / 3
    }

    /// The position with linear id `i`.
    pub closed spec fn at(i: int) -> Position {
        Position { cid: i as u8, x: (i % 3) as u8, y: (i / 3) as u8 }
    }

    pub broadcast proof fn lemma_at(i: int)
        requires
            0 <= i < 9,
        ensures
            (#[trigger] Position::at(i)).wf(),
            Position::at(i).id() == i,
    {
    }

    /// What a well-formed position is: an id on the board, with its column
    /// and row, and nothing but its id to tell it apart from another.
    pub broadcast proof fn lemma_wf(self)
        ensures
            #[trigger] self.wf() ==> {
                &&& 0 <= self.id() < 9
                &&& self.col() == self.id() % 3
                &&& self.row() == self.id() / 3
            },
    {
    }

    pub broadcast proof fn lemma_id_range(self)
        ensures
            0 <= #[trigger] self.id() < 256,
    {
    }

    pub broadcast proof fn lemma_eq(self, other: Position)
        requires
            self.wf(),
            other.wf(),
        ensures
            #[trigger] self.id() == #[trigger] other.id() <==> self == other,
    {
    }

    /// The linear id and the coordinates of a cell determine each other:
    /// `y * 3 + x` for column `x` and row `y`, and back by `% 3` and `/ 3`.
    pub proof fn lemma_round_trip(x: int, y: int, id: int)
        requires
            0 <= x < 3,
            0 <= y < 3,
            0 <= id < 9,
        ensures
            Position::at(y * 3 + x).id() == y * 3 + x,
            Position::at(y * 3 + x).col() == x,
            Position::at(y * 3 + x).row() == y,
            Position::at(id).row() * 3 + Position::at(id).col() == id,
            Position::at(Position::at(id).row() * 3 + Position::at(id).col()) == Position::at(id),
    {
    }

    pub fn from_xy(x: u8, y: u8) -> (r: Position)
        requires
            x < 3,
            y < 3,
        ensures
            r.wf(),
            r == Position::at(y * 3 + x),
            r.col() == x,
            r.row() == y,
            r.id() == y * 3 + x,
    {
        Position { cid: y * 3 + x, x, y }
    }

    pub fn from_cid(cid: u8) -> (r: Position)
        requires
            cid < 9,
        ensures
            r.wf(),
            r == Position::at(cid as int),
            r.id() == cid,
            r.col() == cid % 3,
            r.row() == cid / 3,
    {
        Position { cid, x: cid % 3, y: cid / 3 }
    }

    pub fn get_x(&self) -> (r: u8)
        ensures
            r == self.col(),
    {
        self.x
    }

    pub fn get_y(&self) -> (r: u8)
        ensures
            r == self.row(),
    {
        self.y
    }

    pub fn get_cid(&self) -> (r: u8)
        ensures
            r == self.id(),
    {
        self.cid
    }
}


impl Default for Position {
    fn default() -> (r: Position)
        ensures
            r.wf(),
            r.id() == 0,
    {
        Position::from_cid(0)
    }
}

/// The cells of one of the 8 lines of a board, the middle cell first; rows,
/// columns and diagonals in the order in which the games check them.
pub open spec fn line(k: int) -> (int, int, int) {
    if k == 0 {
        (4, 0, 8)
    } else if k == 1 {
        (3, 0, 6)
    } else if k == 2 {
        (1, 0, 2)
    } else if k == 3 {
        (4, 2, 6)
    } else if k == 4 {
        (4, 1, 7)
    } else if k == 5 {
        (4, 3, 5)
    } else if k == 6 {
        (5, 2, 8)
    } else {
        (7, 6, 8)
    }
}

pub fn line_cells(k: usize) -> (r: (usize, usize, usize))
    requires
        k < 8,
    ensures
        r.0 == line(k as int).0,
        r.1 == line(k as int).1,
        r.2 == line(k as int).2,
        r.0 < 9 && r.1 < 9 && r.2 < 9,
{
    if k == 0 {
        (4, 0, 8)
    } else if k == 1 {
        (3, 0, 6)
    } else if k == 2 {
        (1, 0, 2)
    } else if k == 3 {
        (4, 2, 6)
    } else if k == 4 {
        (4, 1, 7)
    } else if k == 5 {
        (4, 3, 5)
    } else if k == 6 {
        (5, 2, 8)
    } else {
        (7, 6, 8)
    }
}

/// A player identity: games are generic over it.
pub trait Player: Copy + Sized {
    /// The stable key by which two player values are the same player.
    spec fn uuid(&self) -> Seq<char>;

    /// Who moves after this player.
    spec fn next_spec(&self) -> Self;

    fn next_player(&self) -> (r: Self)
        ensures
            r == self.next_spec(),
    ;

    fn get_uuid(&self) -> (r: String)
        ensures
            r@ == self.uuid(),
    ;
}

/// Whether two player values stand for the same player.
pub fn same_player<P: Player>(a: &P, b: &P) -> (r: bool)
    ensures
        r == (a.uuid() == b.uuid()),
{
    a.get_uuid() == b.get_uuid()
}

#[derive(Clone, Copy, Debug)]
pub enum GameResult<P: Player> {
    Won(P),
    Draw,
    Incomplete,
}

/// What a move reports: the cells it changed as a side effect, who moves
/// next, and how the game stands afterwards.
#[derive(Debug)]
pub struct MoveData<P: Player> {
    pub jump: Option<Vec<Position>>,
    pub next_player: P,
    pub result: GameResult<P>,
}

/// Every position a move reports is a position of the board.
pub open spec fn jump_wf(jump: Option<Vec<Position>>) -> bool {
    match jump {
        Some(j) => forall|i: int| 0 <= i < j@.len() ==> (#[trigger] j@[i]).wf(),
        None => true,
    }
}

/// The contract that every game variant meets.
pub trait GenericGame<P: Player>: Sized {
    /// The description of one move of this variant.
    type Move: Copy;

    /// The state is consistent.
    spec fn wf(&self) -> bool;

    /// The player to move.
    spec fn mover(&self) -> P;

    /// The legality predicate.
    spec fn valid(&self, m: Self::Move) -> bool;

    /// The moves that `get_valid_moves` lists, in its order.
    spec fn moves(&self) -> Seq<Self::Move>;

    /// A measure that every move which leaves the game incomplete lowers.
    spec fn progress(&self) -> nat;

    /// What a move `m` from this state does: `after` is the state it leaves
    /// and `r` what it reports.
    spec fn moved(&self, m: Self::Move, after: Self, r: MoveData<P>) -> bool;

    /// This state with the move handed to `p`.
    spec fn with_player(&self, p: P) -> Self;

    /// The listed moves are legal, and the list is empty only when no move is.
    proof fn lemma_moves(&self)
        requires
            self.wf(),
        ensures
            forall|i: int| 0 <= i < self.moves().len() ==> self.valid(#[trigger] self.moves()[i]),
            self.moves().len() == 0 ==> forall|m: Self::Move| !self.valid(m),
    ;

    /// A fresh game; `pos` is the cell it fills when nested.
    fn create(player: P, pos: Position) -> (r: Self)
        ensures
            r.wf(),
            r.mover() == player,
    ;

    fn mov(&mut self, m: Self::Move) -> (r: MoveData<P>)
        requires
            old(self).wf(),
            old(self).valid(m),
        ensures
            final(self).wf(),
            old(self).moved(m, *final(self), r),
            r.next_player == final(self).mover(),
            jump_wf(r.jump),
            r.result is Incomplete ==> final(self).progress() < old(self).progress(),
    ;

    fn get_valid_moves(&self) -> (r: Vec<Self::Move>)
        requires
            self.wf(),
        ensures
            r@ == self.moves(),
    ;

    fn is_valid_move(&self, m: &Self::Move) -> (r: bool)
        requires
            self.wf(),
        ensures
            r == self.valid(*m),
    ;

    /// Hands the move to `player`; what is legal does not change.
    fn set_player(&mut self, player: P)
        requires
            old(self).wf(),
        ensures
            *final(self) == old(self).with_player(player),
            final(self).wf(),
            final(self).moves() == old(self).moves(),
            forall|m: Self::Move| final(self).valid(m) == old(self).valid(m),
            final(self).progress() == old(self).progress(),
    ;

    fn get_player(&self) -> (r: P)
        requires
            self.wf(),
        ensures
            r == self.mover(),
    ;

    /// An independent copy, equal in everything the contract speaks of.
    fn duplicate(&self) -> (r: Self)
        requires
            self.wf(),
        ensures
            r.wf(),
            r.mover() == self.mover(),
            r.moves() == self.moves(),
            forall|m: Self::Move| r.valid(m) == self.valid(m),
            r.progress() == self.progress(),
    ;
}

/// Two games that agree in everything the game contract speaks of.
pub open spec fn same_game<P: Player, G: GenericGame<P>>(a: G, b: G) -> bool {
    &&& a.wf() == b.wf()
    &&& a.mover() == b.mover()
    &&& a.moves() == b.moves()
    &&& forall|m: G::Move| a.valid(m) == b.valid(m)
    &&& a.progress() == b.progress()
}

/// One cell of a composed game: a sub-game in play, or a finished one kept
/// with its outcome. `Empty` stands in a slot only while a move rewrites it.
pub enum SubgameState<T: GenericGame<P>, P: Player> {
    Won(P, T),
    Draw(T),
    Playing(T),
    Empty,
}

impl<T: GenericGame<P>, P: Player> SubgameState<T, P> {
    pub open spec fn wf(&self) -> bool {
        match self {
            SubgameState::Won(_, g) => g.wf(),
            SubgameState::Draw(g) => g.wf(),
            SubgameState::Playing(g) => g.wf(),
            SubgameState::Empty => false,
        }
    }

    pub open spec fn progress(&self) -> nat {
        match self {
            SubgameState::Playing(g) => g.progress() + 1,
            _ => 0,
        }
    }

    /// A copy that keeps the outcome and an equivalent game.
    pub fn duplicate(&self) -> (r: Self)
        requires
            self.wf(),
        ensures
            r.wf(),
            same_state(r, *self),
    {
        match self {
            SubgameState::Won(p, g) => SubgameState::Won(*p, g.duplicate()),
            SubgameState::Draw(g) => SubgameState::Draw(g.duplicate()),
            SubgameState::Playing(g) => SubgameState::Playing(g.duplicate()),
            SubgameState::Empty => SubgameState::Empty,
        }
    }
}

/// The cell state that a finished move of `g` leaves, by its result.
pub open spec fn wrap<T: GenericGame<P>, P: Player>(result: GameResult<P>, g: T) -> SubgameState<T, P> {
    match result {
        GameResult::Won(p) => SubgameState::Won(p, g),
        GameResult::Draw => SubgameState::Draw(g),
        GameResult::Incomplete => SubgameState::Playing(g),
    }
}

/// The cells a move reports, as a sequence.
pub open spec fn jump_view(jump: Option<Vec<Position>>) -> Option<Seq<Position>> {
    match jump {
        Some(j) => Some(j@),
        None => None,
    }
}

/// Two cell states with the same outcome and equivalent games.
pub open spec fn same_state<T: GenericGame<P>, P: Player>(
    a: SubgameState<T, P>,
    b: SubgameState<T, P>,
) -> bool {
    match (a, b) {
        (SubgameState::Won(p, g), SubgameState::Won(q, h)) => p == q && same_game(g, h),
        (SubgameState::Draw(g), SubgameState::Draw(h)) => same_game(g, h),
        (SubgameState::Playing(g), SubgameState::Playing(h)) => same_game(g, h),
        (SubgameState::Empty, SubgameState::Empty) => true,
        _ => false,
    }
}

} // verus!
