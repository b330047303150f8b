use vstd::prelude::*;

use crate::generic::{
    jump_view, line, line_cells, same_player, same_state, wrap, GameResult, GenericGame, MoveData, Player, Position,
    SubgameState,
};

verus! {

broadcast use {Position::lemma_wf, Position::lemma_at};

/// What builds the game of one cell: any function from the cell and the
/// first player to a game.
pub trait SubgameGen<T: GenericGame<P>, P: Player>: Fn(Position, P) -> T {

}

impl<F: Fn(Position, P) -> T, T: GenericGame<P>, P: Player> SubgameGen<T, P> for F {

}

/// A move of the composed game: the cell to play in, and the move of that
/// cell's game.
#[derive(Clone, Copy, Debug)]
pub struct SuperTicTacToeMove<M> {
    pub pos: Position,
    pub submove: M,
}

/// Nine games on a 3x3 grid, played as one: a move goes into a cell of the
/// forced set, and decides where the next player may move.
pub struct SuperTicTacToe<T: GenericGame<P>, P: Player> {
    grid: Vec<SubgameState<T, P>>,
    player: P,
    jump: Vec<Position>,
}

/// The player who holds all three cells of line `k`, compared by identity
/// key; the holder of the middle cell stands for them.
pub open spec fn line_winner<T: GenericGame<P>, P: Player>(
    cells: Seq<SubgameState<T, P>>,
    k: int,
) -> Option<P> {
    let (a, b, c) = line(k);
    match (cells[a], cells[b], cells[c]) {
        (SubgameState::Won(p, _), SubgameState::Won(q, _), SubgameState::Won(r, _)) => {
            if p.uuid() == q.uuid() && q.uuid() == r.uuid() {
                Some(p)
            } else {
                None
            }
        },
        _ => None,
    }
}

/// The winner of the first won line from line `k` on.
pub open spec fn first_winner<T: GenericGame<P>, P: Player>(
    cells: Seq<SubgameState<T, P>>,
    k: int,
) -> Option<P>
    decreases 8 - k,
{
    if k >= 8 {
        None
    } else if line_winner(cells, k) is Some {
        line_winner(cells, k)
    } else {
        first_winner(cells, k + 1)
    }
}

pub open spec fn any_playing<T: GenericGame<P>, P: Player>(cells: Seq<SubgameState<T, P>>) -> bool {
    exists|i: int| 0 <= i < 9 && #[trigger] cells[i] is Playing
}

/// How the composed game stands: the first won line decides; with none, a
/// cell still in play leaves the game incomplete, and otherwise it is drawn.
pub open spec fn outcome<T: GenericGame<P>, P: Player>(cells: Seq<SubgameState<T, P>>) -> GameResult<
    P,
> {
    match first_winner(cells, 0) {
        Some(p) => GameResult::Won(p),
        None => if any_playing(cells) {
            GameResult::Incomplete
        } else {
            GameResult::Draw
        },
    }
}

/// The positions of `s` whose cell is still in play, in their order.
pub open spec fn playing_among<T: GenericGame<P>, P: Player>(
    cells: Seq<SubgameState<T, P>>,
    s: Seq<Position>,
) -> Seq<Position>
    decreases s.len(),
{
    if s.len() == 0 {
        Seq::empty()
    } else {
        let r = playing_among(cells, s.drop_last());
        if cells[s.last().id()] is Playing {
            r.push(s.last())
        } else {
            r
        }
    }
}

pub open spec fn all_positions() -> Seq<Position> {
    Seq::new(9, |i: int| Position::at(i))
}

/// The forced set after a move into `from` whose sub-move reported `jump`:
/// the reported cells that are still in play, or else `from` if it is, or
/// else every cell still in play.
pub open spec fn forced_cells<T: GenericGame<P>, P: Player>(
    cells: Seq<SubgameState<T, P>>,
    jump: Option<Seq<Position>>,
    from: Position,
) -> Seq<Position> {
    let f = match jump {
        Some(j) => playing_among(cells, j),
        None => playing_among(cells, seq![from]),
    };
    if f.len() > 0 {
        f
    } else {
        playing_among(cells, all_positions())
    }
}

pub open spec fn progress_sum<T: GenericGame<P>, P: Player>(
    cells: Seq<SubgameState<T, P>>,
    n: int,
) -> nat
    decreases n,
{
    if n <= 0 {
        0
    } else {
        progress_sum(cells, n - 1) + cells[n - 1].progress()
    }
}

pub proof fn lemma_playing_among<T: GenericGame<P>, P: Player>(
    cells: Seq<SubgameState<T, P>>,
    s: Seq<Position>,
)
    ensures
        forall|k: int|
            0 <= k < playing_among(cells, s).len() ==> s.contains(
                #[trigger] playing_among(cells, s)[k],
            ) && cells[playing_among(cells, s)[k].id()] is Playing,
        forall|x: Position|
            #![trigger s.contains(x)]
            s.contains(x) && cells[x.id()] is Playing ==> playing_among(cells, s).contains(x),
    decreases s.len(),
{
    if s.len() > 0 {
        let t = s.drop_last();
        lemma_playing_among(cells, t);
        assert forall|x: Position| t.contains(x) implies s.contains(x) by {
            let i = choose|i: int| 0 <= i < t.len() && t[i] == x;
            assert(s[i] == x);
        }
        assert forall|x: Position|
            #![trigger s.contains(x)]
            s.contains(x) && cells[x.id()] is Playing implies playing_among(cells, s).contains(x) by {
            let i = choose|i: int| 0 <= i < s.len() && s[i] == x;
            if i < s.len() - 1 {
                assert(t[i] == x);
                assert(t.contains(x));
                let pt = playing_among(cells, t);
                let j = choose|j: int| 0 <= j < pt.len() && pt[j] == x;
                if cells[s.last().id()] is Playing {
                    assert(playing_among(cells, s) == pt.push(s.last()));
                    assert(pt.push(s.last())[j] == x);
                } else {
                    assert(playing_among(cells, s) == pt);
                }
            } else {
                let r = playing_among(cells, t).push(s.last());
                assert(s.last() == x);
                assert(playing_among(cells, s) == r);
                assert(r[r.len() - 1] == x);
            }
        }
    }
}

proof fn lemma_progress_update<T: GenericGame<P>, P: Player>(
    cells: Seq<SubgameState<T, P>>,
    i: int,
    x: SubgameState<T, P>,
    n: int,
)
    requires
        0 <= i < n <= cells.len(),
    ensures
        progress_sum(cells.update(i, x), n) + cells[i].progress() == progress_sum(cells, n)
            + x.progress(),
    decreases n,
{
    if n - 1 > i {
        lemma_progress_update(cells, i, x, n - 1);
    } else {
        assert forall|j: int| 0 <= j < n - 1 implies cells.update(i, x)[j] == cells[j] by {}
        lemma_progress_equal(cells.update(i, x), cells, n - 1);
    }
}

proof fn lemma_progress_equal<T: GenericGame<P>, P: Player>(
    a: Seq<SubgameState<T, P>>,
    b: Seq<SubgameState<T, P>>,
    n: int,
)
    requires
        n <= a.len(),
        n <= b.len(),
        forall|j: int| 0 <= j < n ==> a[j].progress() == b[j].progress(),
    ensures
        progress_sum(a, n) == progress_sum(b, n),
    decreases n,
{
    if n > 0 {
        lemma_progress_equal(a, b, n - 1);
    }
}

proof fn lemma_no_winner<T: GenericGame<P>, P: Player>(cells: Seq<SubgameState<T, P>>, k: int)
    requires
        cells.len() == 9,
        forall|i: int| 0 <= i < 9 ==> !(#[trigger] cells[i] is Won),
    ensures
        first_winner(cells, k) is None,
    decreases 8 - k,
{
    if k < 8 {
        lemma_no_winner(cells, k + 1);
    }
}

proof fn lemma_same_outcome<T: GenericGame<P>, P: Player>(
    a: Seq<SubgameState<T, P>>,
    b: Seq<SubgameState<T, P>>,
    k: int,
)
    requires
        a.len() == 9,
        b.len() == 9,
        forall|i: int| 0 <= i < 9 ==> same_state(#[trigger] a[i], b[i]),
    ensures
        first_winner(a, k) == first_winner(b, k),
        k == 0 ==> outcome(a) == outcome(b),
    decreases 8 - k,
{
    if k < 8 {
        lemma_same_outcome(a, b, k + 1);
        let (x, y, z) = line(k);
        assert(same_state(a[x], b[x]) && same_state(a[y], b[y]) && same_state(a[z], b[z]));
        assert(line_winner(a, k) == line_winner(b, k));
    }
    if k == 0 {
        assert(any_playing(a) == any_playing(b)) by {
            if any_playing(a) {
                let i = choose|i: int| 0 <= i < 9 && #[trigger] a[i] is Playing;
                assert(same_state(a[i], b[i]));
                assert(b[i] is Playing);
            }
            if any_playing(b) {
                let i = choose|i: int| 0 <= i < 9 && #[trigger] b[i] is Playing;
                assert(same_state(a[i], b[i]));
                assert(a[i] is Playing);
            }
        }
    }
}

proof fn lemma_first_winner<T: GenericGame<P>, P: Player>(cells: Seq<SubgameState<T, P>>, k: int)
    requires
        0 <= k <= 8,
    ensures
        first_winner(cells, k) is Some ==> exists|j: int|
            k <= j < 8 && #[trigger] line_winner(cells, j) == first_winner(cells, k),
        (exists|j: int| k <= j < 8 && #[trigger] line_winner(cells, j) is Some) ==> first_winner(
            cells,
            k,
        ) is Some,
    decreases 8 - k,
{
    if k < 8 {
        lemma_first_winner(cells, k + 1);
        if line_winner(cells, k) is Some {
            assert(line_winner(cells, k) == first_winner(cells, k));
        }
    }
}

/// The outcome goes by the lines: a line whose three cells are won by one
/// player (by identity key) makes the composed game won, by the player of
/// a won line, and by that player where every won line is theirs; with no
/// such line, a cell in play leaves the game incomplete, and a grid with no
/// cell in play is drawn.
pub proof fn lemma_outcome_by_lines<T: GenericGame<P>, P: Player>(cells: Seq<SubgameState<T, P>>)
    requires
        cells.len() == 9,
    ensures
        (exists|k: int| 0 <= k < 8 && #[trigger] line_winner(cells, k) is Some) ==> {
            &&& outcome(cells) is Won
            &&& exists|k: int|
                0 <= k < 8 && #[trigger] line_winner(cells, k) == Some(outcome(cells)->Won_0)
        },
        forall|k: int|
            0 <= k < 8 && #[trigger] line_winner(cells, k) is Some && (forall|j: int|
                0 <= j < 8 && #[trigger] line_winner(cells, j) is Some ==> line_winner(cells, j)->0.uuid()
                    == line_winner(cells, k)->0.uuid()) ==> {
                &&& outcome(cells) is Won
                &&& outcome(cells)->Won_0.uuid() == line_winner(cells, k)->0.uuid()
            },
        (forall|k: int| 0 <= k < 8 ==> #[trigger] line_winner(cells, k) is None) ==> {
            &&& !any_playing(cells) ==> outcome(cells) == GameResult::<P>::Draw
            &&& any_playing(cells) ==> outcome(cells) == GameResult::<P>::Incomplete
        },
{
    lemma_first_winner(cells, 0);
    if (forall|k: int| 0 <= k < 8 ==> #[trigger] line_winner(cells, k) is None) {
        assert(first_winner(cells, 0) is None);
    }
}

/// The forced-cell rule: after a move into `from` whose sub-move reported
/// no cells, the forced set is exactly `from` while its game is in play;
/// reported cells in play are the forced set; and where neither leaves a
/// cell, the forced set is every cell still in play.
pub proof fn lemma_forcing<T: GenericGame<P>, P: Player>(
    cells: Seq<SubgameState<T, P>>,
    jump: Option<Seq<Position>>,
    from: Position,
)
    requires
        cells.len() == 9,
        from.wf(),
    ensures
        jump is None && cells[from.id()] is Playing ==> forced_cells(cells, jump, from) == seq![from],
        jump is None && !(cells[from.id()] is Playing) ==> forced_cells(cells, jump, from)
            == playing_among(cells, all_positions()),
        jump is Some && playing_among(cells, jump->0).len() > 0 ==> forced_cells(cells, jump, from)
            == playing_among(cells, jump->0),
        jump is Some && playing_among(cells, jump->0).len() == 0 ==> forced_cells(cells, jump, from)
            == playing_among(cells, all_positions()),
        forall|x: Position|
            #![trigger playing_among(cells, all_positions()).contains(x)]
            x.wf() ==> (playing_among(cells, all_positions()).contains(x) <==> cells[x.id()] is Playing),
{
    let one = seq![from];
    assert(one.drop_last() =~= Seq::<Position>::empty());
    assert(playing_among(cells, one.drop_last()) =~= Seq::<Position>::empty());
    if cells[from.id()] is Playing {
        assert(playing_among(cells, one) =~= seq![from]);
    } else {
        assert(playing_among(cells, one) =~= Seq::<Position>::empty());
    }
    lemma_playing_among(cells, all_positions());
    assert forall|x: Position| x.wf() implies (playing_among(cells, all_positions()).contains(x)
        <==> cells[x.id()] is Playing) by {
        Position::lemma_eq(x, Position::at(x.id()));
        assert(all_positions()[x.id()] == x);
        assert(all_positions().contains(x));
    }
}

impl<T: GenericGame<P>, P: Player> SuperTicTacToe<T, P> {
    /// The nine cells, by linear id.
    pub closed spec fn cells(&self) -> Seq<SubgameState<T, P>> {
        self.grid@
    }

    /// The cells in which the next move may be made.
    pub closed spec fn forced(&self) -> Seq<Position> {
        self.jump@
    }

    /// The moves into cell `i`, if it is in the forced set.
    pub open spec fn block(&self, i: int) -> Seq<SuperTicTacToeMove<T::Move>> {
        if self.forced().contains(Position::at(i)) {
            match self.cells()[i] {
                SubgameState::Playing(g) => g.moves().map_values(
                    |sm: T::Move| SuperTicTacToeMove { pos: Position::at(i), submove: sm },
                ),
                _ => Seq::empty(),
            }
        } else {
            Seq::empty()
        }
    }

    /// The moves into the cells before `n`, cell by cell.
    pub open spec fn moves_upto(&self, n: int) -> Seq<SuperTicTacToeMove<T::Move>>
        decreases n,
    {
        if n <= 0 {
            Seq::empty()
        } else {
            self.moves_upto(n - 1) + self.block(n - 1)
        }
    }

    proof fn lemma_moves_upto(&self, n: int)
        requires
            self.wf(),
            0 <= n <= 9,
        ensures
            forall|i: int|
                0 <= i < self.moves_upto(n).len() ==> self.valid(#[trigger] self.moves_upto(n)[i]),
            forall|i: int| 0 <= i < n ==> self.moves_upto(n).len() >= #[trigger] self.block(i).len(),
        decreases n,
    {
        if n > 0 {
            self.lemma_moves_upto(n - 1);
            let c = n - 1;
            let prev = self.moves_upto(n - 1);
            let b = self.block(c);
            assert(self.moves_upto(n) == prev + b);
            if self.jump@.contains(Position::at(c)) {
                if let SubgameState::Playing(g) = self.grid@[c] {
                    g.lemma_moves();
                    assert forall|i: int| 0 <= i < b.len() implies self.valid(#[trigger] b[i]) by {
                        assert(g.valid(g.moves()[i]));
                    }
                }
            }
            assert forall|i: int|
                0 <= i < self.moves_upto(n).len() implies self.valid(
                #[trigger] self.moves_upto(n)[i],
            ) by {
                if i < prev.len() {
                    assert(self.moves_upto(n)[i] == prev[i]);
                } else {
                    assert(self.moves_upto(n)[i] == b[i - prev.len()]);
                }
            }
        }
    }

    proof fn lemma_same_moves(&self, other: &Self, n: int)
        requires
            self.grid@.len() == 9,
            other.grid@.len() == 9,
            self.jump@ == other.jump@,
            forall|i: int| 0 <= i < 9 ==> same_state(#[trigger] self.grid@[i], other.grid@[i]),
            0 <= n <= 9,
        ensures
            self.moves_upto(n) == other.moves_upto(n),
        decreases n,
    {
        if n > 0 {
            self.lemma_same_moves(other, n - 1);
            assert(same_state(self.grid@[n - 1], other.grid@[n - 1]));
            assert(self.block(n - 1) == other.block(n - 1));
        }
    }

    /// Handing the move over changes nothing but the mover.
    pub proof fn lemma_with_player(self, p: P)
        ensures
            self.with_player(p).mover() == p,
            self.with_player(p).cells() == self.cells(),
            self.with_player(p).forced() == self.forced(),
    {
    }

    pub fn new<U: SubgameGen<T, P>>(player: P, new_board: U) -> (r: Self)
        requires
            forall|pos: Position, p: P| call_requires(new_board, (pos, p)),
            forall|pos: Position, p: P, g: T| call_ensures(new_board, (pos, p), g) ==> g.wf(),
        ensures
            r.wf(),
            r.mover() == player,
            forall|i: int|
                0 <= i < 9 ==> #[trigger] r.cells()[i] is Playing && call_ensures(
                    new_board,
                    (Position::at(i), player),
                    r.cells()[i]->Playing_0,
                ),
            r.forced() == all_positions(),
    {
        let mut grid: Vec<SubgameState<T, P>> = Vec::new();
        let mut i: usize = 0;
        while i < 9
            invariant
                i <= 9,
                grid@.len() == i,
                forall|j: int| 0 <= j < i ==> (#[trigger] grid@[j]).wf() && grid@[j] is Playing,
                forall|j: int|
                    0 <= j < i ==> call_ensures(
                        new_board,
                        (Position::at(j), player),
                        (#[trigger] grid@[j])->Playing_0,
                    ),
                forall|pos: Position, p: P| call_requires(new_board, (pos, p)),
                forall|pos: Position, p: P, g: T| call_ensures(new_board, (pos, p), g) ==> g.wf(),
            decreases 9 - i,
        {
            grid.push(SubgameState::Playing(new_board(Position::from_cid(i as u8), player)));
            i += 1;
        }
        let r = SuperTicTacToe { grid, player: player, jump: Self::alljump() };
        proof {
            lemma_no_winner(r.grid@, 0);
            assert(r.grid@[0] is Playing);
            assert forall|k: int| 0 <= k < r.jump@.len() implies r.grid@[(#[trigger] r.jump@[k]).id()] is Playing by {
                assert(r.jump@[k] == Position::at(k));
                assert(r.jump@[k].id() == k);
                assert(r.grid@[k].wf());
            }
            assert forall|i: int| 0 <= i < 9 implies (#[trigger] r.grid@[i]).wf() by {}
        }
        r
    }

    fn alljump() -> (r: Vec<Position>)
        ensures
            r@ == all_positions(),
    {
        let mut v: Vec<Position> = Vec::new();
        let mut i: usize = 0;
        while i < 9
            invariant
                i <= 9,
                v@ == Seq::new(i as nat, |j: int| Position::at(j)),
            decreases 9 - i,
        {
            v.push(Position::from_cid(i as u8));
            i += 1;
            assert(v@ =~= Seq::new(i as nat, |j: int| Position::at(j)));
        }
        assert(v@ =~= all_positions());
        v
    }

    pub fn get_cell_ref(&self, pos: Position) -> (r: &SubgameState<T, P>)
        requires
            self.wf(),
            pos.wf(),
        ensures
            *r == self.cells()[pos.id()],
    {
        &self.grid[pos.get_cid() as usize]
    }

    fn cell_is_playing(&self, pos: Position) -> (r: bool)
        requires
            self.grid@.len() == 9,
            pos.wf(),
        ensures
            r == self.grid@[pos.id()] is Playing,
    {
        match &self.grid[pos.get_cid() as usize] {
            SubgameState::Playing(_) => true,
            _ => false,
        }
    }

    /// The cells of `list` that are still in play.
    fn playing_of(&self, list: &Vec<Position>) -> (r: Vec<Position>)
        requires
            self.grid@.len() == 9,
            forall|k: int| 0 <= k < list@.len() ==> (#[trigger] list@[k]).wf(),
        ensures
            r@ == playing_among(self.grid@, list@),
    {
        let mut res: Vec<Position> = Vec::new();
        let mut k: usize = 0;
        while k < list.len()
            invariant
                k <= list@.len(),
                self.grid@.len() == 9,
                forall|j: int| 0 <= j < list@.len() ==> (#[trigger] list@[j]).wf(),
                res@ == playing_among(self.grid@, list@.take(k as int)),
            decreases list.len() - k,
        {
            let p = list[k];
            assert(list@.take(k + 1).drop_last() =~= list@.take(k as int));
            assert(list@.take(k + 1).last() == p);
            if self.cell_is_playing(p) {
                res.push(p);
            }
            k += 1;
        }
        assert(list@.take(list@.len() as int) =~= list@);
        res
    }

    fn sanitize_jump_raw(&self, ojump: &Option<Vec<Position>>, from: Position) -> (r: Vec<Position>)
        requires
            self.grid@.len() == 9,
            crate::generic::jump_wf(*ojump),
            from.wf(),
        ensures
            r@ == match jump_view(*ojump) {
                Some(j) => playing_among(self.grid@, j),
                None => playing_among(self.grid@, seq![from]),
            },
    {
        match ojump {
            Some(jump) => self.playing_of(jump),
            None => {
                let v = vec![from];
                assert(v@ =~= seq![from]);
                self.playing_of(&v)
            },
        }
    }

    /// The forced set after a move into `from` whose sub-move reported `ojump`.
    fn sanitize_jump(&self, ojump: &Option<Vec<Position>>, from: Position) -> (r: Vec<Position>)
        requires
            self.grid@.len() == 9,
            crate::generic::jump_wf(*ojump),
            from.wf(),
        ensures
            r@ == forced_cells(self.grid@, jump_view(*ojump), from),
    {
        let res = self.sanitize_jump_raw(ojump, from);
        if res.len() > 0 {
            res
        } else {
            self.sanitize_jump_raw(&Some(Self::alljump()), from)
        }
    }

    /// Whether the next move may go into `mopos`.
    pub fn is_good_cell(&self, mopos: Position) -> (r: bool)
        ensures
            r == self.forced().contains(mopos),
    {
        let mut k: usize = 0;
        while k < self.jump.len()
            invariant
                k <= self.jump@.len(),
                forall|j: int| 0 <= j < k ==> self.jump@[j] != mopos,
            decreases self.jump.len() - k,
        {
            if self.jump[k] == mopos {
                assert(self.jump@[k as int] == mopos);
                return true;
            }
            k += 1;
        }
        false
    }

    fn line_winner_at(&self, k: usize) -> (r: Option<P>)
        requires
            self.grid@.len() == 9,
            k < 8,
        ensures
            r == line_winner(self.grid@, k as int),
    {
        let (a, b, c) = line_cells(k);
        match (&self.grid[a], &self.grid[b], &self.grid[c]) {
            (SubgameState::Won(p, _), SubgameState::Won(q, _), SubgameState::Won(s, _)) => {
                if same_player(p, q) && same_player(q, s) {
                    Some(*p)
                } else {
                    None
                }
            },
            _ => None,
        }
    }

    /// The outcome of the composed game, read off the cells.
    fn check_win(&self) -> (r: GameResult<P>)
        requires
            self.grid@.len() == 9,
        ensures
            r == outcome(self.grid@),
    {
        let mut k: usize = 0;
        while k < 8
            invariant
                k <= 8,
                self.grid@.len() == 9,
                first_winner(self.grid@, 0) == first_winner(self.grid@, k as int),
            decreases 8 - k,
        {
            if let Some(p) = self.line_winner_at(k) {
                return GameResult::Won(p);
            }
            k += 1;
        }
        let mut i: usize = 0;
        while i < 9
            invariant
                i <= 9,
                self.grid@.len() == 9,
                first_winner(self.grid@, 0) is None,
                forall|j: int| 0 <= j < i ==> !(#[trigger] self.grid@[j] is Playing),
            decreases 9 - i,
        {
            if let SubgameState::Playing(_) = &self.grid[i] {
                assert(self.grid@[i as int] is Playing);
                assert(any_playing(self.grid@));
                return GameResult::Incomplete;
            }
            i += 1;
        }
        GameResult::Draw
    }
}

impl<T: GenericGame<P>, P: Player> GenericGame<P> for SuperTicTacToe<T, P> {
    type Move = SuperTicTacToeMove<T::Move>;

    open spec fn wf(&self) -> bool {
        &&& self.cells().len() == 9
        &&& forall|i: int| 0 <= i < 9 ==> (#[trigger] self.cells()[i]).wf()
        &&& forall|k: int| 0 <= k < self.forced().len() ==> (#[trigger] self.forced()[k]).wf()
        &&& if outcome(self.cells()) is Incomplete {
            &&& self.forced().len() > 0
            &&& forall|k: int|
                0 <= k < self.forced().len() ==> self.cells()[(#[trigger] self.forced()[k]).id()] is Playing
        } else {
            self.forced().len() == 0
        }
    }

    closed spec fn mover(&self) -> P {
        self.player
    }

    open spec fn valid(&self, m: SuperTicTacToeMove<T::Move>) -> bool {
        &&& m.pos.wf()
        &&& self.forced().contains(m.pos)
        &&& match self.cells()[m.pos.id()] {
            SubgameState::Playing(g) => g.valid(m.submove),
            _ => false,
        }
    }

    open spec fn moves(&self) -> Seq<SuperTicTacToeMove<T::Move>> {
        self.moves_upto(9)
    }

    open spec fn progress(&self) -> nat {
        progress_sum(self.cells(), 9)
    }

    /// A move is the sub-game's own move in its cell, made by the mover:
    /// the cell takes the moved game under the sub-move's result, the mover
    /// becomes the sub-move's next player, the outcome is read off the
    /// cells, and the forced set comes from the cells the sub-move reported.
    /// The move reports its cell when the cell's game was won.
    open spec fn moved(&self, m: SuperTicTacToeMove<T::Move>, after: Self, r: MoveData<P>) -> bool {
        let c = m.pos.id();
        match self.cells()[c] {
            SubgameState::Playing(g) => exists|g2: T, sd: MoveData<P>|
                {
                    &&& #[trigger] g.with_player(self.mover()).moved(m.submove, g2, sd)
                    &&& after.cells() == self.cells().update(c, wrap(sd.result, g2))
                    &&& after.mover() == sd.next_player
                    &&& r.next_player == sd.next_player
                    &&& r.result == outcome(after.cells())
                    &&& r.result is Incomplete ==> after.forced() == forced_cells(
                        after.cells(),
                        jump_view(sd.jump),
                        m.pos,
                    )
                    &&& !(r.result is Incomplete) ==> after.forced().len() == 0
                    &&& jump_view(r.jump) == if sd.result is Won {
                        Some(seq![m.pos])
                    } else {
                        None::<Seq<Position>>
                    }
                },
            _ => false,
        }
    }

    closed spec fn with_player(&self, p: P) -> Self {
        SuperTicTacToe { grid: self.grid, player: p, jump: self.jump }
    }

    proof fn lemma_moves(&self) {
        self.lemma_moves_upto(9);
        assert forall|m: SuperTicTacToeMove<T::Move>|
            self.moves().len() == 0 implies !self.valid(m) by {
            if self.valid(m) {
                let c = m.pos.id();
                Position::lemma_eq(m.pos, Position::at(c));
                if let SubgameState::Playing(g) = self.grid@[c] {
                    g.lemma_moves();
                    assert(g.moves().len() > 0);
                    assert(self.block(c).len() > 0);
                }
            }
        }
    }

    fn create(player: P, pos: Position) -> (r: Self) {
        let fresh = (|pos: Position, player: P| -> (g: T)
            ensures
                g.wf(),
            { T::create(player, pos) });
        Self::new(player, fresh)
    }

    fn mov(&mut self, m: SuperTicTacToeMove<T::Move>) -> (r: MoveData<P>)
    {
        let ghost old_self = *self;
        let pos = m.pos;
        let i = pos.get_cid() as usize;
        let player = self.player;
        let ghost old_grid = self.grid@;
        let state = self.grid.remove(i);
        match state {
            SubgameState::Playing(mut game) => {
                let ghost g0 = game;
                game.set_player(player);
                let mdata = game.mov(m.submove);
                self.player = mdata.next_player;
                let won = matches!(mdata.result, GameResult::Won(_));
                let new_state = match mdata.result {
                    GameResult::Won(p) => SubgameState::Won(p, game),
                    GameResult::Draw => SubgameState::Draw(game),
                    GameResult::Incomplete => SubgameState::Playing(game),
                };
                self.grid.insert(i, new_state);
                proof {
                    assert forall|j: int| 0 <= j < 9 implies self.grid@[j] == old_grid.update(i as int, new_state)[j] by {
                        if j < i {
                            assert(self.grid@[j] == old_grid.remove(i as int)[j]);
                        } else if j > i {
                            assert(self.grid@[j] == old_grid.remove(i as int)[j - 1]);
                        }
                    }
                    assert(self.grid@ =~= old_grid.update(i as int, new_state));
                    lemma_progress_update(old_grid, i as int, new_state, 9);
                }
                let result = self.check_win();
                if matches!(result, GameResult::Incomplete) {
                    self.jump = self.sanitize_jump(&mdata.jump, pos);
                    proof {
                        let cells = self.grid@;
                        let sj = jump_view(mdata.jump);
                        assert(self.jump@ == forced_cells(cells, sj, pos));
                        match sj {
                            Some(j) => lemma_playing_among(cells, j),
                            None => lemma_playing_among(cells, seq![pos]),
                        }
                        lemma_playing_among(cells, all_positions());
                        let f = match sj {
                            Some(j) => playing_among(cells, j),
                            None => playing_among(cells, seq![pos]),
                        };
                        if f.len() == 0 {
                            assert(any_playing(cells));
                            let c = choose|c: int| 0 <= c < 9 && #[trigger] cells[c] is Playing;
                            assert(all_positions()[c] == Position::at(c));
                            assert(all_positions().contains(Position::at(c)));
                            assert(playing_among(cells, all_positions()).contains(Position::at(c)));
                        }
                        assert forall|k: int| 0 <= k < self.jump@.len() implies (#[trigger] self.jump@[k]).wf() by {
                            let x = self.jump@[k];
                            if f.len() > 0 {
                                match sj {
                                    Some(j) => {
                                        assert(j.contains(x));
                                    },
                                    None => {
                                        assert(seq![pos].contains(x));
                                    },
                                }
                            } else {
                                assert(all_positions().contains(x));
                            }
                        }
                    }
                } else {
                    self.jump = Vec::new();
                }
                let jump = if won {
                    Some(vec![pos])
                } else {
                    None
                };
                let r = MoveData { jump, next_player: mdata.next_player, result };
                proof {
                    assert(new_state == wrap(mdata.result, game));
                    if won {
                        assert(r.jump->0@ =~= seq![pos]);
                    }
                    let c = pos.id();
                    assert(old_self.cells()[c] == SubgameState::Playing(g0));
                    assert(old_self.mover() == player);
                    assert(g0.with_player(old_self.mover()).moved(m.submove, game, mdata));
                    assert(self.cells() == old_self.cells().update(c, wrap(mdata.result, game)));
                    assert(self.mover() == mdata.next_player);
                    assert(r.result == outcome(self.cells()));
                    assert(r.result is Incomplete ==> self.forced() == forced_cells(
                        self.cells(),
                        jump_view(mdata.jump),
                        m.pos,
                    ));
                    assert(!(r.result is Incomplete) ==> self.forced().len() == 0);
                    assert(jump_view(r.jump) == if mdata.result is Won {
                        Some(seq![m.pos])
                    } else {
                        None::<Seq<Position>>
                    });
                    assert(old_self.moved(m, *self, r));
                }
                r
            },
            _ => vstd::pervasive::unreached(),
        }
    }

    fn get_valid_moves(&self) -> (r: Vec<SuperTicTacToeMove<T::Move>>) {
        let mut goodmoves: Vec<SuperTicTacToeMove<T::Move>> = Vec::new();
        let mut i: usize = 0;
        while i < 9
            invariant
                i <= 9,
                self.wf(),
                goodmoves@ == self.moves_upto(i as int),
            decreases 9 - i,
        {
            let pos = Position::from_cid(i as u8);
            if self.is_good_cell(pos) {
                proof {
                    let k = choose|k: int| 0 <= k < self.jump@.len() && self.jump@[k] == pos;
                    assert(self.grid@[self.jump@[k].id()] is Playing);
                }
                match &self.grid[i] {
                    SubgameState::Playing(game) => {
                        let vmoves = game.get_valid_moves();
                        let ghost start = goodmoves@;
                        let mut j: usize = 0;
                        while j < vmoves.len()
                            invariant
                                j <= vmoves@.len(),
                                goodmoves@ == start + Seq::new(
                                    j as nat,
                                    |t: int| SuperTicTacToeMove { pos, submove: vmoves@[t] },
                                ),
                            decreases vmoves.len() - j,
                        {
                            goodmoves.push(SuperTicTacToeMove { pos, submove: vmoves[j] });
                            j += 1;
                            assert(goodmoves@ =~= start + Seq::new(
                                j as nat,
                                |t: int| SuperTicTacToeMove { pos, submove: vmoves@[t] },
                            ));
                        }
                        assert(Seq::new(
                            vmoves@.len(),
                            |t: int| SuperTicTacToeMove { pos, submove: vmoves@[t] },
                        ) =~= self.block(i as int));
                    },
                    _ => vstd::pervasive::unreached(),
                }
            } else {
                assert(self.block(i as int) =~= Seq::empty());
            }
            assert(goodmoves@ =~= self.moves_upto(i + 1));
            i += 1;
        }
        goodmoves
    }

    fn is_valid_move(&self, m: &SuperTicTacToeMove<T::Move>) -> (r: bool) {
        if self.is_good_cell(m.pos) {
            proof {
                let k = choose|k: int| 0 <= k < self.jump@.len() && self.jump@[k] == m.pos;
                assert(self.jump@[k].wf());
                assert(self.grid@[self.jump@[k].id()] is Playing);
            }
            match &self.grid[m.pos.get_cid() as usize] {
                SubgameState::Playing(game) => game.is_valid_move(&m.submove),
                _ => vstd::pervasive::unreached(),
            }
        } else {
            false
        }
    }

    fn set_player(&mut self, player: P)
        ensures
            final(self).mover() == player,
            final(self).cells() == old(self).cells(),
            final(self).forced() == old(self).forced(),
    {
        let ghost before = *self;
        self.player = player;
        proof {
            assert forall|i: int| 0 <= i < 9 implies same_state(#[trigger] self.grid@[i], before.grid@[i]) by {}
            self.lemma_same_moves(&before, 9);
        }
    }

    fn get_player(&self) -> (r: P) {
        self.player
    }

    fn duplicate(&self) -> (r: Self) {
        let mut grid: Vec<SubgameState<T, P>> = Vec::new();
        let mut i: usize = 0;
        while i < 9
            invariant
                i <= 9,
                self.wf(),
                grid@.len() == i,
                forall|j: int|
                    0 <= j < i ==> (#[trigger] grid@[j]).wf() && same_state(grid@[j], self.grid@[j]),
            decreases 9 - i,
        {
            grid.push(self.grid[i].duplicate());
            i += 1;
        }
        let mut jump: Vec<Position> = Vec::new();
        let mut k: usize = 0;
        while k < self.jump.len()
            invariant
                k <= self.jump@.len(),
                jump@ == self.jump@.take(k as int),
            decreases self.jump.len() - k,
        {
            jump.push(self.jump[k]);
            k += 1;
            assert(jump@ =~= self.jump@.take(k as int));
        }
        assert(jump@ =~= self.jump@);
        let r = SuperTicTacToe { grid, player: self.player, jump };
        proof {
            lemma_same_outcome(r.grid@, self.grid@, 0);
            r.lemma_same_moves(self, 9);
            lemma_progress_equal(r.grid@, self.grid@, 9);
            assert forall|m: SuperTicTacToeMove<T::Move>| r.valid(m) == self.valid(m) by {
                if m.pos.wf() {
                    assert(same_state(r.grid@[m.pos.id()], self.grid@[m.pos.id()]));
                }
            }
        }
        r
    }
}

} // verus!
