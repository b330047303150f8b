use vstd::prelude::*;
use vstd::set_lib::{lemma_int_range, lemma_len_subset, set_int_range};

use crate::generic::{
    line, line_cells, same_player, GameResult, GenericGame, MoveData, Player, Position,
};

verus! {

broadcast use {Position::lemma_wf, Position::lemma_at, Position::lemma_id_range};

/// A value that carries a player and a move-order subscript.
pub trait Subscripted<P: Player> {
    spec fn player_of(&self) -> P;

    spec fn subscript_of(&self) -> u8;

    fn get_player(&self) -> (r: P)
        ensures
            r == self.player_of(),
    ;

    fn get_subscript(&self) -> (r: u8)
        ensures
            r == self.subscript_of(),
    ;
}

/// An unresolved move: two cells joined for one player, with the move's
/// subscript.
#[derive(Clone, Copy, Debug)]
pub struct Entanglement<P: Player> {
    pub p1: Position,
    pub p2: Position,
    pub player: P,
    pub subscript: u8,
}

/// A resolved mark: the player and subscript of the entanglement that
/// collapsed into the cell.
#[derive(Clone, Copy, Debug)]
pub struct Measurement<P: Player> {
    pub player: P,
    pub subscript: u8,
}

/// Whether `e` has an end in cell `c`.
pub open spec fn touches<P: Player>(e: Entanglement<P>, c: int) -> bool {
    e.p1.id() == c || e.p2.id() == c
}

/// The end of `e` across from cell `c`.
pub open spec fn other_end<P: Player>(e: Entanglement<P>, c: int) -> Position {
    if e.p2.id() == c {
        e.p1
    } else {
        e.p2
    }
}

/// Whether `e` joins cells `a` and `b`, in either order.
pub open spec fn joins<P: Player>(e: Entanglement<P>, a: int, b: int) -> bool {
    (e.p1.id() == a && e.p2.id() == b) || (e.p1.id() == b && e.p2.id() == a)
}

/// Entanglement equality: the same unordered pair, the same player by
/// identity key, and the same subscript.
pub open spec fn ent_eq<P: Player>(a: Entanglement<P>, b: Entanglement<P>) -> bool {
    &&& joins(a, b.p1.id(), b.p2.id())
    &&& a.player.uuid() == b.player.uuid()
    &&& a.subscript == b.subscript
}

pub open spec fn meas_of<P: Player>(e: Entanglement<P>) -> Measurement<P> {
    Measurement { player: e.player, subscript: e.subscript }
}

/// A number for an unordered pair of cells.
pub open spec fn pair_code(a: int, b: int) -> int {
    if a <= b {
        a * 9 + b
    } else {
        b * 9 + a
    }
}

/// A set of cells that no entanglement but those equal to `m` leaves: each
/// other entanglement has both ends in it or neither.
pub open spec fn closed_under<P: Player>(ents: Seq<Entanglement<P>>, m: Entanglement<P>, s: Set<int>) -> bool {
    forall|i: int|
        #![trigger ents[i]]
        0 <= i < ents.len() && !ent_eq(ents[i], m) ==> (s.contains(ents[i].p1.id()) <==> s.contains(
            ents[i].p2.id(),
        ))
}

/// Cell `to` is reached from cell `from` through entanglements other than
/// `m`: every set closed in that sense that holds `from` holds `to`.
pub open spec fn cycle_from<P: Player>(
    ents: Seq<Entanglement<P>>,
    m: Entanglement<P>,
    from: int,
    to: int,
) -> bool {
    forall|s: Set<int>| #[trigger] closed_under(ents, m, s) && s.contains(from) ==> s.contains(to)
}

/// The entanglements of `ents` with an end in cell `c`, in order.
pub open spec fn touching<P: Player>(ents: Seq<Entanglement<P>>, c: int) -> Seq<Entanglement<P>>
    decreases ents.len(),
{
    if ents.len() == 0 {
        Seq::empty()
    } else {
        let r = touching(ents.drop_last(), c);
        if touches(ents.last(), c) {
            r.push(ents.last())
        } else {
            r
        }
    }
}

pub proof fn lemma_touching<P: Player>(ents: Seq<Entanglement<P>>, c: int)
    ensures
        forall|k: int|
            0 <= k < touching(ents, c).len() ==> ents.contains(#[trigger] touching(ents, c)[k])
                && touches(touching(ents, c)[k], c),
        forall|i: int|
            0 <= i < ents.len() && #[trigger] touches(ents[i], c) ==> touching(ents, c).contains(
                ents[i],
            ),
    decreases ents.len(),
{
    if ents.len() > 0 {
        let t = ents.drop_last();
        lemma_touching(t, c);
        let r = touching(t, c);
        assert forall|k: int|
            0 <= k < touching(ents, c).len() implies ents.contains(
            #[trigger] touching(ents, c)[k],
        ) && touches(touching(ents, c)[k], c) by {
            if k < r.len() {
                assert(touching(ents, c)[k] == r[k]);
                let j = choose|j: int| 0 <= j < t.len() && t[j] == r[k];
                assert(ents[j] == t[j]);
            } else {
                assert(touching(ents, c)[k] == ents.last());
                assert(ents[ents.len() - 1] == ents.last());
            }
        }
        assert forall|i: int|
            0 <= i < ents.len() && #[trigger] touches(ents[i], c) implies touching(ents, c).contains(
            ents[i],
        ) by {
            if i < ents.len() - 1 {
                assert(t[i] == ents[i]);
                let j = choose|j: int| 0 <= j < r.len() && r[j] == ents[i];
                if touches(ents.last(), c) {
                    assert(touching(ents, c)[j] == ents[i]);
                } else {
                    assert(touching(ents, c)[j] == ents[i]);
                }
            } else {
                let r2 = r.push(ents.last());
                assert(touching(ents, c) == r2);
                assert(r2[r.len() as int] == ents[i]);
            }
        }
    }
}

impl<P: Player> Subscripted<P> for Entanglement<P> {
    open spec fn player_of(&self) -> P {
        self.player
    }

    open spec fn subscript_of(&self) -> u8 {
        self.subscript
    }

    fn get_player(&self) -> (r: P) {
        self.player
    }

    fn get_subscript(&self) -> (r: u8) {
        self.subscript
    }
}

impl<P: Player> Subscripted<P> for Measurement<P> {
    open spec fn player_of(&self) -> P {
        self.player
    }

    open spec fn subscript_of(&self) -> u8 {
        self.subscript
    }

    fn get_player(&self) -> (r: P) {
        self.player
    }

    fn get_subscript(&self) -> (r: u8) {
        self.subscript
    }
}

impl<P: Player> PartialEq for Entanglement<P> {
    fn eq(&self, other: &Entanglement<P>) -> (r: bool) {
        let (a1, a2) = (self.p1.get_cid(), self.p2.get_cid());
        let (b1, b2) = (other.p1.get_cid(), other.p2.get_cid());
        ((a1 == b1 && a2 == b2) || (a1 == b2 && a2 == b1)) && same_player(
            &self.player,
            &other.player,
        ) && self.subscript == other.subscript
    }
}

impl<P: Player> vstd::std_specs::cmp::PartialEqSpecImpl for Entanglement<P> {
    open spec fn obeys_eq_spec() -> bool {
        true
    }

    open spec fn eq_spec(&self, other: &Entanglement<P>) -> bool {
        ent_eq(*self, *other)
    }
}

impl<P: Player> Entanglement<P> {
    /// The cell that collapses first when this entanglement is measured from
    /// its first end (`first`) or its second, with the mark it gets.
    fn measure_n(&self, first: bool) -> (r: (Position, Measurement<P>))
        ensures
            r.0 == (if first {
                self.p1
            } else {
                self.p2
            }),
            r.1 == meas_of(*self),
    {
        if first {
            (self.p1, Measurement { player: self.player, subscript: self.subscript })
        } else {
            (self.p2, Measurement { player: self.player, subscript: self.subscript })
        }
    }

    /// The end across from `pos`, reached through this entanglement, with
    /// the mark it gets.
    fn measure_push(&self, pos: Position) -> (r: (Position, Measurement<P>))
        requires
            touches(*self, pos.id()),
        ensures
            r.0 == other_end(*self, pos.id()),
            r.1 == meas_of(*self),
    {
        if self.p2.get_cid() == pos.get_cid() {
            (self.p1, Measurement { player: self.player, subscript: self.subscript })
        } else {
            (self.p2, Measurement { player: self.player, subscript: self.subscript })
        }
    }
}

impl<P: Player> PartialEq for Measurement<P> {
    /// Marks compare by the player's identity key alone.
    fn eq(&self, other: &Measurement<P>) -> (r: bool) {
        same_player(&self.player, &other.player)
    }
}

impl<P: Player> vstd::std_specs::cmp::PartialEqSpecImpl for Measurement<P> {
    open spec fn obeys_eq_spec() -> bool {
        true
    }

    open spec fn eq_spec(&self, other: &Measurement<P>) -> bool {
        self.player.uuid() == other.player.uuid()
    }
}

/// The entangle-phase payload: two cells to join.
#[derive(Clone, Copy, Debug)]
pub struct QuantumTicTacToeMoveEnt {
    pub p1: Position,
    pub p2: Position,
}

/// The measure-phase payload: which end of the pending entanglement
/// collapses first.
#[derive(Clone, Copy, Debug)]
pub struct QuantumTicTacToeMoveMeas {
    pub first: bool,
}

#[derive(Clone, Copy, Debug)]
pub enum QuantumMove {
    Entangle(QuantumTicTacToeMoveEnt),
    Measure(QuantumTicTacToeMoveMeas),
}

/// The entangle move that the enumeration tries at step `t`: cells `t / 9`
/// and `t % 9`.
pub open spec fn candidate(t: int) -> QuantumMove {
    QuantumMove::Entangle(QuantumTicTacToeMoveEnt { p1: Position::at(t / 9), p2: Position::at(t % 9) })
}

pub struct QuantumTicTacToe<P: Player> {
    classic_marks: Vec<Option<Measurement<P>>>,
    ents: Vec<Entanglement<P>>,
    player: P,
    fplayer: P,
    subscript: u8,
    do_meas: Option<Entanglement<P>>,
    /// The pair numbers of every entanglement made so far.
    history: Ghost<Set<int>>,
}

/// A winning line: its player and the largest subscript among its marks.
pub open spec fn max_u8(a: u8, b: u8) -> u8 {
    if a >= b {
        a
    } else {
        b
    }
}

pub open spec fn line_row<P: Player>(marks: Seq<Option<Measurement<P>>>, k: int) -> Option<(P, u8)> {
    let (a, b, c) = line(k);
    match (marks[a], marks[b], marks[c]) {
        (Some(m1), Some(m2), Some(m3)) => {
            if m1.player.uuid() == m2.player.uuid() && m2.player.uuid() == m3.player.uuid() {
                Some((m1.player, max_u8(m1.subscript, max_u8(m2.subscript, m3.subscript))))
            } else {
                None
            }
        },
        _ => None,
    }
}

/// The winning lines among the first `n`, in order.
pub open spec fn rows_upto<P: Player>(marks: Seq<Option<Measurement<P>>>, n: int) -> Seq<(P, u8)>
    decreases n,
{
    if n <= 0 {
        Seq::empty()
    } else {
        let r = rows_upto(marks, n - 1);
        match line_row(marks, n - 1) {
            Some(row) => r.push(row),
            None => r,
        }
    }
}

pub open spec fn winning_rows<P: Player>(marks: Seq<Option<Measurement<P>>>) -> Seq<(P, u8)> {
    rows_upto(marks, 8)
}

/// The index of the first row with the smallest resolution order among the
/// first `n`.
pub open spec fn min_row<P>(rows: Seq<(P, u8)>, n: int) -> int
    decreases n,
{
    if n <= 1 {
        0
    } else {
        let j = min_row(rows, n - 1);
        if rows[n - 1].1 < rows[j].1 {
            n - 1
        } else {
            j
        }
    }
}

/// Two players complete lines at the smallest resolution order.
pub open spec fn tied<P: Player>(rows: Seq<(P, u8)>) -> bool {
    let w = rows[min_row(rows, rows.len() as int)];
    exists|i: int|
        0 <= i < rows.len() && #[trigger] rows[i].1 == w.1 && rows[i].0.uuid() != w.0.uuid()
}

/// How a quantum game stands: the earliest completed line wins, two players
/// at once draw, and with no line the game is drawn once no move is left.
pub open spec fn quantum_outcome<P: Player>(
    marks: Seq<Option<Measurement<P>>>,
    no_moves: bool,
) -> GameResult<P> {
    let rows = winning_rows(marks);
    if rows.len() > 0 {
        if tied(rows) {
            GameResult::Draw
        } else {
            GameResult::Won(rows[min_row(rows, rows.len() as int)].0)
        }
    } else if no_moves {
        GameResult::Draw
    } else {
        GameResult::Incomplete
    }
}

/// One step of a collapse: a cell, the mark it gets, and the entanglement
/// through which it was reached.
pub type Resolution<P> = (Position, Measurement<P>, Entanglement<P>);

/// The cells that a collapse resolves.
pub open spec fn resolved<P: Player>(res: Seq<Resolution<P>>) -> Set<int> {
    Set::new(|c: int| exists|k: int| 0 <= k < res.len() && #[trigger] res[k].0.id() == c)
}

/// A step of a collapse seeded at `m`: its cell is an end of its
/// entanglement, which is `m` or an active one, and its mark is that
/// entanglement's.
pub open spec fn step_ok<P: Player>(
    ents: Seq<Entanglement<P>>,
    m: Entanglement<P>,
    it: Resolution<P>,
) -> bool {
    &&& touches(it.2, it.0.id())
    &&& it.1 == meas_of(it.2)
    &&& (it.2 == m || ents.contains(it.2))
    &&& it.0.id() < 9
}

/// What a committed collapse seeded at `m`, from cell `s` towards cell `t`,
/// is: it starts at `s` through `m`; it resolves both `s` and `t`; the cells
/// it resolves are closed, and lie in every closed set that holds `s`; every
/// entanglement it consumes has both ends resolved; every active
/// entanglement with an end in a resolved cell is consumed.
#[verifier::opaque]
pub open spec fn collapse<P: Player>(
    ents: Seq<Entanglement<P>>,
    m: Entanglement<P>,
    s: int,
    t: int,
    res: Seq<Resolution<P>>,
) -> bool {
    &&& res.len() > 0
    &&& res[0].0.id() == s
    &&& res[0].2 == m
    &&& forall|k: int| 0 <= k < res.len() ==> step_ok(ents, m, #[trigger] res[k])
    &&& forall|k: int|
        0 <= k < res.len() ==> resolved(res).contains((#[trigger] res[k]).2.p1.id()) && resolved(
            res,
        ).contains(res[k].2.p2.id())
    &&& resolved(res).contains(s)
    &&& resolved(res).contains(t)
    &&& closed_under(ents, m, resolved(res))
    &&& forall|s2: Set<int>|
        #[trigger] closed_under(ents, m, s2) && s2.contains(s) ==> resolved(res).subset_of(s2)
    &&& forall|i: int, c: int|
        0 <= i < ents.len() && resolved(res).contains(c) && #[trigger] touches(ents[i], c) ==> exists|
            k: int,
        | 0 <= k < res.len() && ent_eq(#[trigger] res[k].2, ents[i])
}

/// Every active entanglement's pair is recorded.
pub open spec fn codes_recorded<P: Player>(ents: Seq<Entanglement<P>>, h: Set<int>) -> bool {
    forall|i: int|
        #![trigger ents[i]]
        0 <= i < ents.len() ==> h.contains(pair_code(ents[i].p1.id(), ents[i].p2.id()))
}

/// A recorded pair is still entangled, or both its cells are marked.
pub open spec fn history_covered<P: Player>(
    ents: Seq<Entanglement<P>>,
    marks: Seq<Option<Measurement<P>>>,
    h: Set<int>,
) -> bool {
    forall|c: int|
        #[trigger] h.contains(c) ==> (exists|i: int|
            0 <= i < ents.len() && pair_code(ents[i].p1.id(), ents[i].p2.id()) == c) || (marks[c / 9] is Some
            && marks[c % 9] is Some)
}

/// No active entanglement has an end in a marked cell.
pub open spec fn ents_unmarked<P: Player>(
    ents: Seq<Entanglement<P>>,
    marks: Seq<Option<Measurement<P>>>,
) -> bool {
    forall|i: int|
        #![trigger ents[i]]
        0 <= i < ents.len() ==> marks[ents[i].p1.id()] is None && marks[ents[i].p2.id()] is None
}

/// Whether a step of `res` consumed an entanglement equal to `x`.
pub open spec fn consumed_by<P: Player>(res: Seq<Resolution<P>>, x: Entanglement<P>) -> bool {
    exists|k: int| 0 <= k < res.len() && ent_eq(#[trigger] res[k].2, x)
}

/// `ents` without the entanglements that the steps of `res` consumed, in
/// their order.
pub open spec fn unconsumed<P: Player>(
    ents: Seq<Entanglement<P>>,
    res: Seq<Resolution<P>>,
) -> Seq<Entanglement<P>>
    decreases ents.len(),
{
    if ents.len() == 0 {
        Seq::empty()
    } else {
        let r = unconsumed(ents.drop_last(), res);
        if consumed_by(res, ents.last()) {
            r
        } else {
            r.push(ents.last())
        }
    }
}

/// `ents` without the entanglements equal to `e`, in their order.
pub open spec fn without<P: Player>(ents: Seq<Entanglement<P>>, e: Entanglement<P>) -> Seq<Entanglement<P>>
    decreases ents.len(),
{
    if ents.len() == 0 {
        Seq::empty()
    } else {
        let r = without(ents.drop_last(), e);
        if ent_eq(e, ents.last()) {
            r
        } else {
            r.push(ents.last())
        }
    }
}

proof fn lemma_unconsumed_none<P: Player>(ents: Seq<Entanglement<P>>, res: Seq<Resolution<P>>)
    requires
        res.len() == 0,
    ensures
        unconsumed(ents, res) == ents,
    decreases ents.len(),
{
    if ents.len() > 0 {
        lemma_unconsumed_none(ents.drop_last(), res);
        assert(ents.drop_last().push(ents.last()) =~= ents);
    }
}

proof fn lemma_unconsumed_push<P: Player>(
    ents: Seq<Entanglement<P>>,
    res: Seq<Resolution<P>>,
    x: Resolution<P>,
)
    ensures
        unconsumed(ents, res.push(x)) == without(unconsumed(ents, res), x.2),
    decreases ents.len(),
{
    if ents.len() > 0 {
        lemma_unconsumed_push(ents.drop_last(), res, x);
        let y = ents.last();
        let r2 = res.push(x);
        if consumed_by(res, y) {
            let k = choose|k: int| 0 <= k < res.len() && ent_eq(#[trigger] res[k].2, y);
            assert(r2[k] == res[k]);
        }
        if ent_eq(x.2, y) {
            assert(r2[res.len() as int] == x);
        }
        if consumed_by(r2, y) && !ent_eq(x.2, y) {
            let k = choose|k: int| 0 <= k < r2.len() && ent_eq(#[trigger] r2[k].2, y);
            assert(k < res.len());
            assert(r2[k] == res[k]);
        }
        let u = unconsumed(ents.drop_last(), res);
        if !consumed_by(res, y) {
            assert(u.push(y).drop_last() == u);
            assert(u.push(y).last() == y);
        }
    }
}

/// Dropping the first entanglement equal to `e`, where no two join the
/// same pair, drops every one equal to `e`.
proof fn lemma_without_remove<P: Player>(s: Seq<Entanglement<P>>, e: Entanglement<P>, t: Seq<Entanglement<P>>)
    requires
        pairs_distinct(s),
        (exists|j: int| 0 <= j < s.len() && ent_eq(s[j], e) && t == s.remove(j)) || (t == s && forall|i: int|
            0 <= i < s.len() ==> !ent_eq(#[trigger] s[i], e)),
    ensures
        t == without(s, e),
    decreases s.len(),
{
    if s.len() > 0 {
        let p = s.drop_last();
        assert(pairs_distinct(p)) by {
            assert forall|a: int, b: int|
                0 <= a < p.len() && 0 <= b < p.len() && a != b implies !joins(
                #[trigger] p[a],
                #[trigger] p[b].p1.id(),
                p[b].p2.id(),
            ) by {
                assert(p[a] == s[a] && p[b] == s[b]);
            }
        }
        if exists|j: int| 0 <= j < s.len() && ent_eq(s[j], e) && t == s.remove(j) {
            let j = choose|j: int| 0 <= j < s.len() && ent_eq(s[j], e) && t == s.remove(j);
            if j == s.len() - 1 {
                assert forall|i: int| 0 <= i < p.len() implies !ent_eq(#[trigger] p[i], e) by {
                    assert(p[i] == s[i]);
                    assert(!joins(s[i], s[j].p1.id(), s[j].p2.id()));
                }
                lemma_without_remove(p, e, p);
                assert(t =~= p);
            } else {
                assert(!ent_eq(e, s.last())) by {
                    assert(s.last() == s[s.len() - 1]);
                    assert(!joins(s[s.len() - 1], s[j].p1.id(), s[j].p2.id()));
                }
                assert(p.remove(j).push(s.last()) =~= t);
                assert(p[j] == s[j]);
                lemma_without_remove(p, e, p.remove(j));
            }
        } else {
            assert forall|i: int| 0 <= i < p.len() implies !ent_eq(#[trigger] p[i], e) by {
                assert(p[i] == s[i]);
            }
            assert(!ent_eq(s[s.len() - 1], e));
            lemma_without_remove(p, e, p);
            assert(p.push(s.last()) =~= s);
        }
    } else {
        assert(t =~= Seq::<Entanglement<P>>::empty());
    }
}

/// Whether `x` is the entanglement `skip` leaves out.
pub open spec fn skipped<P: Player>(x: Entanglement<P>, skip: Option<Entanglement<P>>) -> bool {
    skip is Some && ent_eq(x, skip->0)
}

/// The set `s` holds one end of `e` and not the other, and no entanglement
/// of `ents` but `e` and the one `skip` leaves out crosses it.
pub open spec fn splits<P: Player>(
    ents: Seq<Entanglement<P>>,
    e: Entanglement<P>,
    skip: Option<Entanglement<P>>,
    s: Set<int>,
) -> bool {
    &&& s.contains(e.p1.id())
    &&& !s.contains(e.p2.id())
    &&& forall|i: int|
        #![trigger ents[i]]
        0 <= i < ents.len() && !ent_eq(ents[i], e) && !skipped(ents[i], skip) ==> (s.contains(
            ents[i].p1.id(),
        ) <==> s.contains(ents[i].p2.id()))
}

/// Leaving out `skip`, the entanglements form no cycle: each one has a set
/// that splits it.
pub open spec fn acyclic<P: Player>(ents: Seq<Entanglement<P>>, skip: Option<Entanglement<P>>) -> bool {
    forall|i: int|
        0 <= i < ents.len() && !skipped(#[trigger] ents[i], skip) ==> exists|s: Set<int>|
            splits(ents, ents[i], skip, s)
}

/// Dropping entanglements, and with them the one left out, keeps the rest
/// free of cycles.
proof fn lemma_acyclic_sub<P: Player>(
    big: Seq<Entanglement<P>>,
    skip: Option<Entanglement<P>>,
    small: Seq<Entanglement<P>>,
)
    requires
        acyclic(big, skip),
        forall|i: int| 0 <= i < small.len() ==> big.contains(#[trigger] small[i]) && !skipped(small[i], skip),
    ensures
        acyclic(small, None),
{
    assert forall|i: int| 0 <= i < small.len() && !skipped(#[trigger] small[i], None) implies exists|s: Set<int>|
        splits(small, small[i], None, s) by {
        let j = choose|j: int| 0 <= j < big.len() && big[j] == small[i];
        let s = choose|s: Set<int>| splits(big, big[j], skip, s);
        assert forall|k: int|
            #![trigger small[k]]
            0 <= k < small.len() && !ent_eq(small[k], small[i]) && !skipped(small[k], None) implies (s.contains(
                small[k].p1.id(),
            ) <==> s.contains(small[k].p2.id())) by {
            let l = choose|l: int| 0 <= l < big.len() && big[l] == small[k];
            assert(!skipped(big[l], skip));
        }
        assert(splits(small, small[i], None, s));
    }
}

/// An entanglement that closes a cycle, left out, keeps the others free of
/// cycles.
proof fn lemma_acyclic_closing<P: Player>(g: Seq<Entanglement<P>>, n: Entanglement<P>)
    requires
        acyclic(g, None),
        forall|i: int| 0 <= i < g.len() ==> !ent_eq(#[trigger] g[i], n),
    ensures
        acyclic(g.push(n), Some(n)),
{
    let g2 = g.push(n);
    assert forall|i: int| 0 <= i < g2.len() && !skipped(#[trigger] g2[i], Some(n)) implies exists|s: Set<int>|
        splits(g2, g2[i], Some(n), s) by {
        assert(i < g.len());
        assert(g2[i] == g[i]);
        let s = choose|s: Set<int>| splits(g, g[i], None, s);
        assert forall|k: int|
            #![trigger g2[k]]
            0 <= k < g2.len() && !ent_eq(g2[k], g2[i]) && !skipped(g2[k], Some(n)) implies (s.contains(
                g2[k].p1.id(),
            ) <==> s.contains(g2[k].p2.id())) by {
            if k < g.len() {
                assert(g2[k] == g[k]);
            }
        }
        assert(splits(g2, g2[i], Some(n), s));
    }
}

/// An entanglement that closes no cycle keeps the entanglements free of
/// cycles.
proof fn lemma_acyclic_open<P: Player>(g: Seq<Entanglement<P>>, n: Entanglement<P>)
    requires
        acyclic(g, None),
        forall|i: int| 0 <= i < g.len() ==> !ent_eq(#[trigger] g[i], n),
        !cycle_from(g.push(n), n, n.p1.id(), n.p2.id()),
    ensures
        acyclic(g.push(n), None),
{
    let g2 = g.push(n);
    let t = choose|t: Set<int>| closed_under(g2, n, t) && t.contains(n.p1.id()) && !t.contains(n.p2.id());
    assert forall|k: int| #![trigger g[k]] 0 <= k < g.len() implies (t.contains(g[k].p1.id()) <==> t.contains(
        g[k].p2.id())) by {
        assert(g2[k] == g[k]);
    }
    assert forall|i: int| 0 <= i < g2.len() && !skipped(#[trigger] g2[i], None) implies exists|s: Set<int>|
        splits(g2, g2[i], None, s) by {
        if i == g.len() {
            assert(g2[i] == n);
            assert forall|k: int|
                #![trigger g2[k]]
                0 <= k < g2.len() && !ent_eq(g2[k], g2[i]) && !skipped(g2[k], None) implies (t.contains(
                    g2[k].p1.id(),
                ) <==> t.contains(g2[k].p2.id())) by {}
            assert(splits(g2, g2[i], None, t));
        } else {
            let e = g[i];
            assert(g2[i] == e);
            let s = choose|s: Set<int>| splits(g, e, None, s);
            let in_t = t.contains(e.p1.id());
            let n1 = s.contains(n.p1.id());
            let n2 = s.contains(n.p2.id());
            let s2 = if n1 == n2 {
                s
            } else if n1 {
                if in_t {
                    Set::new(|x: int| s.contains(x) || !t.contains(x))
                } else {
                    Set::new(|x: int| s.contains(x) && !t.contains(x))
                }
            } else {
                if in_t {
                    Set::new(|x: int| s.contains(x) && t.contains(x))
                } else {
                    Set::new(|x: int| s.contains(x) || t.contains(x))
                }
            };
            assert(t.contains(e.p2.id()) == in_t);
            assert forall|k: int|
                #![trigger g2[k]]
                0 <= k < g2.len() && !ent_eq(g2[k], e) && !skipped(g2[k], None) implies (s2.contains(
                    g2[k].p1.id(),
                ) <==> s2.contains(g2[k].p2.id())) by {
                if k < g.len() {
                    assert(g2[k] == g[k]);
                    assert(s.contains(g[k].p1.id()) <==> s.contains(g[k].p2.id()));
                } else {
                    assert(g2[k] == n);
                }
            }
            assert(splits(g2, e, None, s2));
        }
    }
}

/// No two active entanglements join the same pair of cells.
pub open spec fn pairs_distinct<P: Player>(ents: Seq<Entanglement<P>>) -> bool {
    forall|i: int, j: int|
        0 <= i < ents.len() && 0 <= j < ents.len() && i != j ==> !joins(
            #[trigger] ents[i],
            #[trigger] ents[j].p1.id(),
            ents[j].p2.id(),
        )
}

pub open spec fn ents_ok<P: Player>(ents: Seq<Entanglement<P>>) -> bool {
    forall|i: int|
        #![trigger ents[i]]
        0 <= i < ents.len() ==> ents[i].p1.id() < 9 && ents[i].p2.id() < 9 && ents[i].p1.id()
            != ents[i].p2.id()
}

impl<P: Player> QuantumTicTacToe<P> {
    /// The classical mark of each cell, by linear id.
    pub closed spec fn marks(&self) -> Seq<Option<Measurement<P>>> {
        self.classic_marks@
    }

    /// The active entanglements, oldest first.
    pub closed spec fn active(&self) -> Seq<Entanglement<P>> {
        self.ents@
    }

    /// The entanglement whose collapse the next move must resolve, if any.
    pub closed spec fn pending(&self) -> Option<Entanglement<P>> {
        self.do_meas
    }

    pub closed spec fn current_subscript(&self) -> u8 {
        self.subscript
    }

    /// Cells `a` and `b` can be entangled: two distinct unmarked cells that
    /// no active entanglement joins.
    pub closed spec fn ent_ok(&self, a: Position, b: Position) -> bool {
        &&& a.id() < 9
        &&& b.id() < 9
        &&& a.id() != b.id()
        &&& self.classic_marks@[a.id()] is None
        &&& self.classic_marks@[b.id()] is None
        &&& forall|i: int| 0 <= i < self.ents@.len() ==> !joins(#[trigger] self.ents@[i], a.id(), b.id())
    }

    /// What `ent_ok` says, over the marks and the active entanglements.
    pub proof fn lemma_ent_ok(self, a: Position, b: Position)
        ensures
            self.ent_ok(a, b) <==> {
                &&& a.id() < 9
                &&& b.id() < 9
                &&& a.id() != b.id()
                &&& self.marks()[a.id()] is None
                &&& self.marks()[b.id()] is None
                &&& forall|i: int|
                    0 <= i < self.active().len() ==> !joins(#[trigger] self.active()[i], a.id(), b.id())
            },
    {
        assert forall|i: int| 0 <= i < self.ents@.len() implies #[trigger] self.active()[i] == self.ents@[i] by {}
        if forall|i: int| 0 <= i < self.active().len() ==> !joins(#[trigger] self.active()[i], a.id(), b.id()) {
            assert forall|i: int| 0 <= i < self.ents@.len() implies !joins(#[trigger] self.ents@[i], a.id(), b.id()) by {
                assert(self.active()[i] == self.ents@[i]);
            }
        }
    }

    /// The entangle moves among the first `n` candidates.
    pub open spec fn ent_moves_upto(&self, n: int) -> Seq<QuantumMove>
        decreases n,
    {
        if n <= 0 {
            Seq::empty()
        } else {
            let t = n - 1;
            self.ent_moves_upto(n - 1) + if t / 9 < t % 9 && self.ent_ok(
                Position::at(t / 9),
                Position::at(t % 9),
            ) {
                seq![candidate(t)]
            } else {
                Seq::empty()
            }
        }
    }

    pub open spec fn moves_spec(&self) -> Seq<QuantumMove> {
        if self.pending() is Some {
            seq![
                QuantumMove::Measure(QuantumTicTacToeMoveMeas { first: true }),
                QuantumMove::Measure(QuantumTicTacToeMoveMeas { first: false }),
            ]
        } else {
            self.ent_moves_upto(81)
        }
    }

    pub closed spec fn inv(&self) -> bool {
        &&& self.classic_marks@.len() == 9
        &&& ents_ok(self.ents@)
        &&& ents_unmarked(self.ents@, self.classic_marks@)
        &&& pairs_distinct(self.ents@)
        &&& acyclic(self.ents@, self.do_meas)
        &&& codes_recorded(self.ents@, self.history@)
        &&& self.history@.subset_of(set_int_range(0, 81))
        &&& self.subscript as int <= self.history@.len()
        &&& history_covered(self.ents@, self.classic_marks@, self.history@)
        &&& match self.do_meas {
            Some(e) => {
                &&& self.ents@.contains(e)
                &&& e.p1.id() < 9
                &&& e.p2.id() < 9
                &&& e.p1.id() != e.p2.id()
                &&& cycle_from(self.ents@, e, e.p1.id(), e.p2.id())
            },
            None => true,
        }
    }

    pub fn new(player: P) -> (r: Self)
        ensures
            r.inv(),
            r.wf(),
            r.mover() == player,
            r.first_mover() == player,
            r.marks() == Seq::new(9, |i: int| None::<Measurement<P>>),
            r.active() == Seq::<Entanglement<P>>::empty(),
            r.pending() is None,
            r.current_subscript() == 0,
    {
        let mut classic_marks: Vec<Option<Measurement<P>>> = Vec::new();
        let mut i: usize = 0;
        while i < 9
            invariant
                i <= 9,
                classic_marks@ == Seq::new(i as nat, |j: int| None::<Measurement<P>>),
            decreases 9 - i,
        {
            classic_marks.push(None);
            i += 1;
            assert(classic_marks@ =~= Seq::new(i as nat, |j: int| None::<Measurement<P>>));
        }
        let r = QuantumTicTacToe {
            classic_marks,
            ents: Vec::new(),
            player,
            fplayer: player,
            subscript: 0,
            do_meas: None,
            history: Ghost(Set::empty()),
        };
        proof {
            assert(r.history@.len() == 0);
        }
        r
    }

    pub fn get_classic_mark(&self, pos: Position) -> (r: Option<Measurement<P>>)
        requires
            self.inv(),
            pos.id() < 9,
        ensures
            r == self.marks()[pos.id()],
    {
        self.classic_marks[pos.get_cid() as usize]
    }

    pub fn get_ents(&self) -> (r: &Vec<Entanglement<P>>)
        ensures
            r@ == self.active(),
    {
        &self.ents
    }

    /// The active entanglements with an end in `pos`, oldest first.
    pub fn get_ents_in_cell(&self, pos: Position) -> (r: Vec<Entanglement<P>>)
        ensures
            r@ == touching(self.active(), pos.id()),
    {
        let mut cells: Vec<Entanglement<P>> = Vec::new();
        let mut k: usize = 0;
        while k < self.ents.len()
            invariant
                k <= self.ents@.len(),
                cells@ == touching(self.ents@.take(k as int), pos.id()),
            decreases self.ents.len() - k,
        {
            let e = self.ents[k];
            assert(self.ents@.take(k + 1).drop_last() =~= self.ents@.take(k as int));
            assert(self.ents@.take(k + 1).last() == e);
            if e.p1.get_cid() == pos.get_cid() || e.p2.get_cid() == pos.get_cid() {
                cells.push(e);
            }
            k += 1;
        }
        assert(self.ents@.take(self.ents@.len() as int) =~= self.ents@);
        cells
    }

    /// Drops the first active entanglement equal to `ent`, if there is one.
    fn remove_ent(&mut self, ent: Entanglement<P>)
        ensures
            (exists|i: int|
                0 <= i < old(self).ents@.len() && ent_eq(old(self).ents@[i], ent) && final(self).ents@
                    == old(self).ents@.remove(i) && forall|j: int|
                    0 <= j < i ==> !ent_eq(#[trigger] old(self).ents@[j], ent)) || (final(self).ents@
                    == old(self).ents@ && forall|
                i: int,
            |
                0 <= i < old(self).ents@.len() ==> !ent_eq(#[trigger] old(self).ents@[i], ent)),
            final(self).classic_marks@ == old(self).classic_marks@,
            final(self).player == old(self).player,
            final(self).fplayer == old(self).fplayer,
            final(self).subscript == old(self).subscript,
            final(self).do_meas == old(self).do_meas,
            final(self).history == old(self).history,
    {
        let mut i: usize = 0;
        while i < self.ents.len()
            invariant
                i <= self.ents@.len(),
                self.ents@ == old(self).ents@,
                self.classic_marks@ == old(self).classic_marks@,
                self.player == old(self).player,
                self.fplayer == old(self).fplayer,
                self.subscript == old(self).subscript,
                self.do_meas == old(self).do_meas,
                self.history == old(self).history,
                forall|j: int| 0 <= j < i ==> !ent_eq(#[trigger] self.ents@[j], ent),
            decreases self.ents.len() - i,
        {
            if self.ents[i] == ent {
                self.ents.remove(i);
                return;
            }
            i += 1;
        }
    }
}

/// Every entanglement with an end in a visited cell is consumed by a
/// recorded step or waits on the stack.
#[verifier::opaque]
pub open spec fn consumed<P: Player>(
    ents: Seq<Entanglement<P>>,
    vis: Set<int>,
    res: Seq<Resolution<P>>,
    opr: Seq<Resolution<P>>,
) -> bool {
    forall|c: int, i: int|
        vis.contains(c) && 0 <= i < ents.len() && #[trigger] touches(ents[i], c) ==> (exists|k: int|
            0 <= k < res.len() && ent_eq(#[trigger] res[k].2, ents[i])) || (exists|k: int|
            0 <= k < opr.len() && #[trigger] opr[k].2 == ents[i])
}

/// One step of the walk keeps `consumed`: the popped step is recorded, and
/// a newly visited cell pushes every entanglement at it but the one it
/// was reached through.
proof fn lemma_consumed_step<P: Player>(
    ents: Seq<Entanglement<P>>,
    vis0: Set<int>,
    vis: Set<int>,
    res0: Seq<Resolution<P>>,
    opr0: Seq<Resolution<P>>,
    opr: Seq<Resolution<P>>,
    es: Seq<Entanglement<P>>,
)
    requires
        opr0.len() > 0,
        opr.len() >= opr0.len() - 1,
        forall|k: int| 0 <= k < opr0.len() - 1 ==> #[trigger] opr[k] == opr0[k],
        consumed(ents, vis0, res0, opr0),
        (vis == vis0 && opr.len() == opr0.len() - 1) || ({
            let item = opr0.last();
            &&& vis == vis0.insert(item.0.id())
            &&& es == touching(ents, item.0.id())
            &&& forall|k: int|
                0 <= k < es.len() && !ent_eq(#[trigger] es[k], item.2) ==> exists|q: int|
                    0 <= q < opr.len() && #[trigger] opr[q].2 == es[k]
        }),
    ensures
        consumed(ents, vis, res0.push(opr0.last()), opr),
{
    reveal(consumed);
    let item = opr0.last();
    let res = res0.push(item);
    let last = res0.len() as int;
    assert(res[last] == item);
    assert forall|c: int, i: int|
        vis.contains(c) && 0 <= i < ents.len() && #[trigger] touches(ents[i], c) implies (exists|k: int|
            0 <= k < res.len() && ent_eq(#[trigger] res[k].2, ents[i])) || (exists|k: int|
            0 <= k < opr.len() && #[trigger] opr[k].2 == ents[i]) by {
        if vis0.contains(c) {
            if exists|k: int| 0 <= k < res0.len() && ent_eq(#[trigger] res0[k].2, ents[i]) {
                let k = choose|k: int| 0 <= k < res0.len() && ent_eq(#[trigger] res0[k].2, ents[i]);
                assert(res[k] == res0[k]);
            } else {
                let k = choose|k: int| 0 <= k < opr0.len() && #[trigger] opr0[k].2 == ents[i];
                if k < opr0.len() - 1 {
                    assert(opr[k] == opr0[k]);
                } else {
                    assert(ent_eq(res[last].2, ents[i]));
                }
            }
        } else {
            assert(c == item.0.id());
            lemma_touching(ents, c);
            assert(touching(ents, c).contains(ents[i]));
            let jj = choose|jj: int| 0 <= jj < es.len() && es[jj] == ents[i];
            if ent_eq(es[jj], item.2) {
                assert(ent_eq(res[last].2, ents[i]));
            } else {
                let q = choose|q: int| 0 <= q < opr.len() && #[trigger] opr[q].2 == es[jj];
                assert(opr[q].2 == ents[i]);
            }
        }
    }
}

/// Whether a step of `res` resolves `pos`.
fn resolves<P: Player>(res: &Vec<Resolution<P>>, pos: Position) -> (r: bool)
    ensures
        r == resolved(res@).contains(pos.id()),
{
    let mut k: usize = 0;
    while k < res.len()
        invariant
            k <= res@.len(),
            forall|j: int| 0 <= j < k ==> res@[j].0.id() != pos.id(),
        decreases res.len() - k,
    {
        if res[k].0.get_cid() == pos.get_cid() {
            assert(res@[k as int].0.id() == pos.id());
            return true;
        }
        k += 1;
    }
    false
}

impl<P: Player> QuantumTicTacToe<P> {
    /// Runs the collapse seeded at `m` from its first end (`first`) or its
    /// second: a walk over the cells reached through other active
    /// entanglements. It is committed, and its steps returned, exactly when
    /// the walk reaches the other end of `m`, that is when `m` closes a cycle.
    #[verifier::rlimit(100)]
    #[verifier::spinoff_prover]
    fn try_measure(&self, m: Entanglement<P>, first: bool) -> (r: Option<Vec<Resolution<P>>>)
        requires
            ents_ok(self.ents@),
            m.p1.id() < 9,
            m.p2.id() < 9,
            m.p1.id() != m.p2.id(),
        ensures
            ({
                let (s, t) = if first {
                    (m.p1.id(), m.p2.id())
                } else {
                    (m.p2.id(), m.p1.id())
                };
                &&& r is Some <==> cycle_from(self.ents@, m, s, t)
                &&& r is Some ==> collapse(self.ents@, m, s, t, r->0@)
            }),
    {
        reveal(collapse);
        let ghost ents = self.ents@;
        let ghost (s, t) = if first {
            (m.p1.id(), m.p2.id())
        } else {
            (m.p2.id(), m.p1.id())
        };
        let mut res: Vec<Resolution<P>> = Vec::new();
        let mut opr: Vec<Resolution<P>> = Vec::new();
        let mut visited: Vec<bool> = Vec::new();
        let mut i: usize = 0;
        while i < 9
            invariant
                i <= 9,
                visited@ == Seq::new(i as nat, |j: int| false),
            decreases 9 - i,
        {
            visited.push(false);
            i += 1;
            assert(visited@ =~= Seq::new(i as nat, |j: int| false));
        }
        let (p0, me0) = m.measure_n(first);
        let seed: Resolution<P> = (p0, me0, m);
        opr.push(seed);
        let ghost mut vis: Set<int> = Set::empty();
        proof {
            lemma_int_range(0, 9);
            reveal(consumed);
        }
        while opr.len() > 0
            invariant
                ents == self.ents@,
                ents_ok(ents),
                m.p1.id() < 9,
                m.p2.id() < 9,
                m.p1.id() != m.p2.id(),
                s == (if first { m.p1.id() } else { m.p2.id() }),
                t == (if first { m.p2.id() } else { m.p1.id() }),
                seed == (p0, me0, m),
                p0.id() == s,
                visited@.len() == 9,
                forall|c: int| 0 <= c < 9 ==> (visited@[c] <==> vis.contains(c)),
                vis.subset_of(set_int_range(0, 9)),
                set_int_range(0, 9).finite(),
                set_int_range(0, 9).len() == 9,
                forall|k: int| 0 <= k < res@.len() ==> step_ok(ents, m, #[trigger] res@[k]),
                forall|k: int| 0 <= k < opr@.len() ==> step_ok(ents, m, #[trigger] opr@[k]),
                forall|k: int| 0 <= k < res@.len() ==> vis.contains((#[trigger] res@[k]).0.id()),
                forall|c: int|
                    vis.contains(c) ==> exists|k: int| 0 <= k < res@.len() && #[trigger] res@[k].0.id() == c,
                forall|k: int|
                    0 <= k < res@.len() ==> ent_eq((#[trigger] res@[k]).2, m) || vis.contains(
                        other_end(res@[k].2, res@[k].0.id()).id(),
                    ),
                forall|k: int|
                    0 <= k < opr@.len() ==> ent_eq((#[trigger] opr@[k]).2, m) || vis.contains(
                        other_end(opr@[k].2, opr@[k].0.id()).id(),
                    ),
                forall|c: int, i: int|
                    vis.contains(c) && 0 <= i < ents.len() && #[trigger] touches(ents[i], c)
                        && !ent_eq(ents[i], m) ==> vis.contains(other_end(ents[i], c).id()) || exists|
                        k: int,
                    |
                        0 <= k < opr@.len() && #[trigger] opr@[k].0.id() == other_end(ents[i], c).id(),
                forall|s2: Set<int>|
                    #[trigger] closed_under(ents, m, s2) && s2.contains(s) ==> (forall|k: int|
                        0 <= k < res@.len() ==> s2.contains((#[trigger] res@[k]).0.id())) && (forall|
                        k: int,
                    |
                        0 <= k < opr@.len() ==> s2.contains((#[trigger] opr@[k]).0.id())),
                consumed(ents, vis, res@, opr@),
                (res@.len() == 0 && opr@ == seq![seed] && vis == Set::<int>::empty()) || (res@.len()
                    > 0 && res@[0] == seed && vis.contains(s)),
            decreases 9 - vis.len(), opr.len(),
        {
            let ghost vis0 = vis;
            let ghost opr0 = opr@;
            let ghost res0 = res@;
            let item = match opr.pop() {
                Some(x) => x,
                None => vstd::pervasive::unreached(),
            };
            assert(opr0.drop_last() == opr@);
            assert(opr0.last() == item);
            res.push(item);
            let (pos, meas, e) = item;
            let pi = pos.get_cid() as usize;
            let ghost mut es_g: Seq<Entanglement<P>> = Seq::empty();
            if !visited[pi] {
                visited[pi] = true;
                proof {
                    vis = vis.insert(pos.id());
                    lemma_len_subset(vis0, set_int_range(0, 9));
                    lemma_len_subset(vis, set_int_range(0, 9));
                    assert(vis.len() == vis0.len() + 1);
                }
                let es = self.get_ents_in_cell(pos);
                proof {
                    lemma_touching(ents, pos.id());
                    es_g = es@;
                }
                let ghost opr1 = opr@;
                let mut j: usize = 0;
                while j < es.len()
                    invariant
                        ents == self.ents@,
                        ents_ok(ents),
                        es@ == touching(ents, pos.id()),
                        forall|k: int|
                            0 <= k < es@.len() ==> ents.contains(#[trigger] es@[k]) && touches(
                                es@[k],
                                pos.id(),
                            ),
                        j <= es@.len(),
                        pos.id() < 9,
                        vis.contains(pos.id()),
                        opr@.len() >= opr1.len(),
                        forall|k: int| 0 <= k < opr1.len() ==> #[trigger] opr@[k] == opr1[k],
                        forall|k: int| 0 <= k < opr@.len() ==> step_ok(ents, m, #[trigger] opr@[k]),
                        forall|k: int|
                            opr1.len() <= k < opr@.len() ==> {
                                let it = #[trigger] opr@[k];
                                &&& !ent_eq(it.2, e)
                                &&& ents.contains(it.2)
                                &&& touches(it.2, pos.id())
                                &&& it.0 == other_end(it.2, pos.id())
                            },
                        forall|k: int|
                            0 <= k < opr@.len() ==> ent_eq((#[trigger] opr@[k]).2, m) || vis.contains(
                                other_end(opr@[k].2, opr@[k].0.id()).id(),
                            ),
                        forall|k: int|
                            0 <= k < j && !ent_eq(#[trigger] es@[k], e) ==> exists|q: int|
                                0 <= q < opr@.len() && #[trigger] opr@[q].0.id() == other_end(
                                    es@[k],
                                    pos.id(),
                                ).id(),
                        forall|k: int|
                            0 <= k < j && !ent_eq(#[trigger] es@[k], e) ==> exists|q: int|
                                0 <= q < opr@.len() && #[trigger] opr@[q].2 == es@[k],
                    decreases es.len() - j,
                {
                    let c = es[j];
                    if !(c == e) {
                        let (p, me) = c.measure_push(pos);
                        let ghost before = opr@;
                        opr.push((p, me, c));
                        proof {
                            let q = opr@.len() - 1;
                            assert(ents.contains(c));
                            let ci = choose|ci: int| 0 <= ci < ents.len() && ents[ci] == c;
                            assert(ents[ci].p1.id() != ents[ci].p2.id());
                            assert(other_end(c, p.id()).id() == pos.id());
                            assert(opr@[q].0.id() == other_end(es@[j as int], pos.id()).id());
                            assert forall|k: int| 0 <= k < before.len() implies #[trigger] opr@[k] == before[k] by {}
                            assert forall|k: int| 0 <= k < j + 1 && !ent_eq(#[trigger] es@[k], e) implies exists|q: int|
                                0 <= q < opr@.len() && #[trigger] opr@[q].0.id() == other_end(es@[k], pos.id()).id() by {
                                if k < j {
                                    let q = choose|q: int| 0 <= q < before.len() && #[trigger] before[q].0.id() == other_end(es@[k], pos.id()).id();
                                    assert(opr@[q] == before[q]);
                                } else {
                                    assert(opr@[opr@.len() - 1].0.id() == other_end(es@[k], pos.id()).id());
                                }
                            }
                            assert forall|k: int| 0 <= k < j + 1 && !ent_eq(#[trigger] es@[k], e) implies exists|q: int|
                                0 <= q < opr@.len() && #[trigger] opr@[q].2 == es@[k] by {
                                if k < j {
                                    let q = choose|q: int| 0 <= q < before.len() && #[trigger] before[q].2 == es@[k];
                                    assert(opr@[q] == before[q]);
                                } else {
                                    assert(opr@[opr@.len() - 1].2 == es@[k]);
                                }
                            }
                        }
                    }
                    j += 1;
                }
            }
            proof {
                assert(res@ == res0.push(item));
                assert forall|k: int| 0 <= k < res0.len() implies #[trigger] res@[k] == res0[k] by {}
                let opr1 = opr0.drop_last();
                assert forall|k: int| 0 <= k < opr1.len() implies #[trigger] opr@[k] == opr1[k] && opr0[k] == opr1[k] by {}
                assert(step_ok(ents, m, opr0[opr0.len() - 1]));
                assert(ent_eq(item.2, m) || vis0.contains(other_end(item.2, item.0.id()).id()));
                // every visited cell is resolved
                assert forall|c: int| vis.contains(c) implies exists|k: int| 0 <= k < res@.len() && #[trigger] res@[k].0.id() == c by {
                    if vis0.contains(c) {
                        let k = choose|k: int| 0 <= k < res0.len() && #[trigger] res0[k].0.id() == c;
                        assert(res@[k].0.id() == c);
                    } else {
                        assert(res@[res0.len() as int].0.id() == c);
                    }
                }
                assert forall|k: int| 0 <= k < res@.len() implies vis.contains((#[trigger] res@[k]).0.id()) by {
                    if k < res0.len() {
                        assert(res@[k] == res0[k]);
                    }
                }
                assert forall|k: int| 0 <= k < res@.len() implies ent_eq((#[trigger] res@[k]).2, m) || vis.contains(
                    other_end(res@[k].2, res@[k].0.id()).id()) by {
                    if k < res0.len() {
                        assert(res@[k] == res0[k]);
                    }
                }
                assert forall|k: int| 0 <= k < res@.len() implies step_ok(ents, m, #[trigger] res@[k]) by {
                    if k < res0.len() {
                        assert(res@[k] == res0[k]);
                    }
                }
                // the cells reached through active entanglements are visited or pending
                assert forall|c: int, i: int|
                    vis.contains(c) && 0 <= i < ents.len() && #[trigger] touches(ents[i], c)
                        && !ent_eq(ents[i], m) implies vis.contains(other_end(ents[i], c).id()) || exists|k: int|
                        0 <= k < opr@.len() && #[trigger] opr@[k].0.id() == other_end(ents[i], c).id() by {
                    let o = other_end(ents[i], c).id();
                    if vis0.contains(c) {
                        if !vis0.contains(o) {
                            let k = choose|k: int| 0 <= k < opr0.len() && #[trigger] opr0[k].0.id() == o;
                            if k < opr1.len() {
                                assert(opr@[k] == opr1[k]);
                            } else {
                                assert(item.0.id() == o);
                            }
                        }
                    } else {
                        assert(c == pos.id());
                        assert(touching(ents, pos.id()).contains(ents[i]));
                        let jj = choose|jj: int| 0 <= jj < touching(ents, pos.id()).len() && touching(ents, pos.id())[jj] == ents[i];
                        if ent_eq(ents[i], e) {
                            assert(!ent_eq(e, m));
                            assert(other_end(ents[i], c).id() == other_end(e, c).id());
                        }
                    }
                }
                // every cell met lies in each closed set that holds the start
                assert forall|s2: Set<int>|
                    #[trigger] closed_under(ents, m, s2) && s2.contains(s) implies (forall|k: int|
                        0 <= k < res@.len() ==> s2.contains((#[trigger] res@[k]).0.id())) && (forall|k: int|
                        0 <= k < opr@.len() ==> s2.contains((#[trigger] opr@[k]).0.id())) by {
                    assert(s2.contains(item.0.id()));
                    assert forall|k: int| 0 <= k < res@.len() implies s2.contains((#[trigger] res@[k]).0.id()) by {
                        if k < res0.len() {
                            assert(res@[k] == res0[k]);
                        }
                    }
                    assert forall|k: int| 0 <= k < opr@.len() implies s2.contains((#[trigger] opr@[k]).0.id()) by {
                        if k < opr1.len() {
                            assert(opr@[k] == opr1[k]);
                        } else {
                            let it = opr@[k];
                            assert(ents.contains(it.2));
                            let ci = choose|ci: int| 0 <= ci < ents.len() && ents[ci] == it.2;
                            assert(ents[ci].p1.id() != ents[ci].p2.id());
                            if ent_eq(it.2, m) {
                                if res0.len() == 0 {
                                    assert(item == seed);
                                    assert(ent_eq(it.2, e));
                                } else {
                                    assert(pos.id() != s);
                                    assert(pos.id() == t);
                                }
                            } else {
                                assert(closed_under(ents, m, s2));
                                assert(s2.contains(ents[ci].p1.id()) <==> s2.contains(ents[ci].p2.id()));
                            }
                        }
                    }
                }
                lemma_consumed_step(ents, vis0, vis, res0, opr0, opr@, es_g);
                if res0.len() == 0 {
                    assert(item == seed);
                }
                assert(res@[0] == seed);
            }
        }
        proof {
            assert(res@.len() > 0);
            assert forall|c: int| resolved(res@).contains(c) <==> vis.contains(c) by {
                if resolved(res@).contains(c) {
                    let k = choose|k: int| 0 <= k < res@.len() && #[trigger] res@[k].0.id() == c;
                    assert(vis.contains(res@[k].0.id()));
                }
            }
            assert(resolved(res@) =~= vis);
            assert forall|i: int|
                #![trigger ents[i]]
                0 <= i < ents.len() && !ent_eq(ents[i], m) implies (vis.contains(ents[i].p1.id()) <==> vis.contains(
                    ents[i].p2.id())) by {
                assert(ents[i].p1.id() != ents[i].p2.id());
                if vis.contains(ents[i].p1.id()) {
                    assert(touches(ents[i], ents[i].p1.id()));
                    assert(other_end(ents[i], ents[i].p1.id()).id() == ents[i].p2.id());
                }
                if vis.contains(ents[i].p2.id()) {
                    assert(touches(ents[i], ents[i].p2.id()));
                    assert(other_end(ents[i], ents[i].p2.id()).id() == ents[i].p1.id());
                }
            }
            assert(closed_under(ents, m, vis));
        }
        let (apos, _) = m.measure_n(!first);
        if resolves(&res, apos) {
                proof {
                    assert forall|s2: Set<int>| #[trigger] closed_under(ents, m, s2) && s2.contains(s) implies resolved(
                        res@).subset_of(s2) by {
                        assert forall|c: int| resolved(res@).contains(c) implies s2.contains(c) by {
                            let q = choose|q: int| 0 <= q < res@.len() && #[trigger] res@[q].0.id() == c;
                            assert(s2.contains(res@[q].0.id()));
                        }
                    }
                    assert forall|i: int, c: int|
                        0 <= i < ents.len() && resolved(res@).contains(c) && #[trigger] touches(ents[i], c) implies exists|k: int|
                            0 <= k < res@.len() && ent_eq(#[trigger] res@[k].2, ents[i]) by {
                        reveal(consumed);
                        assert(vis.contains(c));
                    }
                    assert forall|q: int| 0 <= q < res@.len() implies resolved(res@).contains((#[trigger] res@[q]).2.p1.id())
                        && resolved(res@).contains(res@[q].2.p2.id()) by {
                        let it = res@[q];
                        assert(step_ok(ents, m, it));
                        assert(vis.contains(it.0.id()));
                        if !ent_eq(it.2, m) {
                            assert(vis.contains(other_end(it.2, it.0.id()).id()));
                        }
                    }
                }
                Some(res)
        } else {
        proof {
            assert(!vis.contains(t)) by {
                if vis.contains(t) {
                    let q = choose|q: int| 0 <= q < res@.len() && #[trigger] res@[q].0.id() == t;
                    assert(res@[q].0.id() != t);
                }
            }
            assert(closed_under(ents, m, vis) && vis.contains(s));
        }
        None
        }
    }
}

/// Reachability through the other entanglements goes both ways.
pub proof fn lemma_cycle_symmetric<P: Player>(
    ents: Seq<Entanglement<P>>,
    m: Entanglement<P>,
    a: int,
    b: int,
)
    requires
        cycle_from(ents, m, a, b),
    ensures
        cycle_from(ents, m, b, a),
{
    assert forall|s: Set<int>| #[trigger] closed_under(ents, m, s) && s.contains(b) implies s.contains(a) by {
        if !s.contains(a) {
            let c = Set::new(|x: int| !s.contains(x));
            assert forall|i: int|
                #![trigger ents[i]]
                0 <= i < ents.len() && !ent_eq(ents[i], m) implies (c.contains(ents[i].p1.id()) <==> c.contains(
                    ents[i].p2.id())) by {
                assert(s.contains(ents[i].p1.id()) <==> s.contains(ents[i].p2.id()));
            }
            assert(closed_under(ents, m, c));
            assert(c.contains(a));
        }
    }
}

/// Whichever end of an entanglement is measured first, a committed
/// collapse resolves the same set of cells.
pub proof fn lemma_collapse_cells_independent<P: Player>(
    ents: Seq<Entanglement<P>>,
    m: Entanglement<P>,
    r1: Seq<Resolution<P>>,
    r2: Seq<Resolution<P>>,
)
    requires
        collapse(ents, m, m.p1.id(), m.p2.id(), r1),
        collapse(ents, m, m.p2.id(), m.p1.id(), r2),
    ensures
        resolved(r1) == resolved(r2),
{
    reveal(collapse);
    assert(closed_under(ents, m, resolved(r2)));
    assert(closed_under(ents, m, resolved(r1)));
    assert(resolved(r1).subset_of(resolved(r2)));
    assert(resolved(r2).subset_of(resolved(r1)));
    assert(resolved(r1) =~= resolved(r2));
}

/// What dropping the first entanglement equal to `ent` leaves, when no two
/// active ones join the same pair: every one left was there before, none
/// left is equal to `ent`, and the pairs stay distinct.
proof fn lemma_removal<P: Player>(
    before: Seq<Entanglement<P>>,
    after: Seq<Entanglement<P>>,
    ent: Entanglement<P>,
)
    requires
        pairs_distinct(before),
        (exists|j: int|
            0 <= j < before.len() && ent_eq(before[j], ent) && after == before.remove(j)) || (after
            == before && forall|i: int| 0 <= i < before.len() ==> !ent_eq(#[trigger] before[i], ent)),
    ensures
        pairs_distinct(after),
        forall|i: int| 0 <= i < after.len() ==> !ent_eq(#[trigger] after[i], ent),
        forall|i: int| 0 <= i < after.len() ==> before.contains(#[trigger] after[i]),
{
    if exists|j: int| 0 <= j < before.len() && ent_eq(before[j], ent) && after == before.remove(j) {
        let j = choose|j: int| 0 <= j < before.len() && ent_eq(before[j], ent) && after == before.remove(j);
        let idx = |i: int| if i < j { i } else { i + 1 };
        assert forall|i: int| 0 <= i < after.len() implies after[i] == before[idx(i)] by {}
        assert forall|i: int| 0 <= i < after.len() implies !ent_eq(#[trigger] after[i], ent) by {
            assert(after[i] == before[idx(i)]);
            assert(idx(i) != j);
            assert(!joins(before[idx(i)], before[j].p1.id(), before[j].p2.id()));
        }
        assert forall|a: int, b: int|
            0 <= a < after.len() && 0 <= b < after.len() && a != b implies !joins(
            #[trigger] after[a],
            #[trigger] after[b].p1.id(),
            after[b].p2.id(),
        ) by {
            assert(after[a] == before[idx(a)]);
            assert(after[b] == before[idx(b)]);
            assert(idx(a) != idx(b));
        }
        assert forall|i: int| 0 <= i < after.len() implies before.contains(#[trigger] after[i]) by {
            assert(before[idx(i)] == after[i]);
        }
    } else {
        assert forall|i: int| 0 <= i < after.len() implies before.contains(#[trigger] after[i]) by {
            assert(before[i] == after[i]);
        }
    }
}

/// After a collapse is written, every recorded pair is still entangled or
/// has both cells marked.
proof fn lemma_collapse_keeps_history<P: Player>(
    ents0: Seq<Entanglement<P>>,
    marks0: Seq<Option<Measurement<P>>>,
    ents1: Seq<Entanglement<P>>,
    marks1: Seq<Option<Measurement<P>>>,
    h: Set<int>,
    res: Seq<Resolution<P>>,
    e: Entanglement<P>,
    s: int,
    t: int,
)
    requires
        collapse(ents0, e, s, t, res),
        marks0.len() == 9,
        marks1.len() == 9,
        ents_ok(ents0),
        codes_recorded(ents0, h),
        history_covered(ents0, marks0, h),
        h.subset_of(set_int_range(0, 81)),
        forall|i: int| 0 <= i < ents1.len() ==> ents0.contains(#[trigger] ents1[i]),
        forall|i: int|
            0 <= i < ents0.len() ==> ents1.contains(#[trigger] ents0[i]) || exists|q: int|
                0 <= q < res.len() && ent_eq(ents0[i], #[trigger] res[q].2),
        forall|c: int| 0 <= c < 9 && marks0[c] is Some ==> #[trigger] marks1[c] is Some,
        forall|q: int| 0 <= q < res.len() ==> marks1[(#[trigger] res[q]).0.id()] is Some,
        ents_unmarked(ents0, marks0),
        forall|q: int, i: int|
            0 <= q < res.len() && 0 <= i < ents1.len() ==> !ent_eq(#[trigger] ents1[i], #[trigger] res[q].2),
        forall|c: int|
            0 <= c < 9 && !resolved(res).contains(c) ==> marks1[c] == marks0[c],
    ensures
        ents_unmarked(ents1, marks1),
        ents_ok(ents1),
        codes_recorded(ents1, h),
        history_covered(ents1, marks1, h),
{
    reveal(collapse);
    assert forall|c: int| resolved(res).contains(c) implies marks1[c] is Some by {
        let q = choose|q: int| 0 <= q < res.len() && #[trigger] res[q].0.id() == c;
        assert(marks1[res[q].0.id()] is Some);
    }
    assert forall|c: int| #[trigger] h.contains(c) implies (exists|i: int|
        0 <= i < ents1.len() && pair_code(ents1[i].p1.id(), ents1[i].p2.id()) == c) || (marks1[c / 9] is Some
        && marks1[c % 9] is Some) by {
        if exists|i: int| 0 <= i < ents0.len() && pair_code(ents0[i].p1.id(), ents0[i].p2.id()) == c {
            let i = choose|i: int| 0 <= i < ents0.len() && pair_code(ents0[i].p1.id(), ents0[i].p2.id()) == c;
            let x = ents0[i];
            assert(ents_ok(ents0) ==> x.p1.id() < 9 && x.p2.id() < 9);
            lemma_pair_code(x.p1.id(), x.p2.id(), x.p1.id(), x.p2.id());
            if ents1.contains(x) {
                let j = choose|j: int| 0 <= j < ents1.len() && ents1[j] == x;
                assert(pair_code(ents1[j].p1.id(), ents1[j].p2.id()) == c);
            } else {
                let q = choose|q: int| 0 <= q < res.len() && ent_eq(x, #[trigger] res[q].2);
                assert(resolved(res).contains(res[q].2.p1.id()));
                assert(resolved(res).contains(res[q].2.p2.id()));
                assert(marks1[x.p1.id()] is Some);
                assert(marks1[x.p2.id()] is Some);
            }
        } else {
            assert(marks0[c / 9] is Some && marks0[c % 9] is Some);
            assert(0 <= c < 81);
        }
    }
    assert forall|i: int| #![trigger ents1[i]] 0 <= i < ents1.len() implies marks1[ents1[i].p1.id()] is None
        && marks1[ents1[i].p2.id()] is None by {
        let x = ents1[i];
        assert(ents0.contains(x));
        let i0 = choose|i0: int| 0 <= i0 < ents0.len() && ents0[i0] == x;
        assert(ents_ok(ents0) ==> x.p1.id() < 9 && x.p2.id() < 9);
        if resolved(res).contains(x.p1.id()) {
            assert(touches(ents0[i0], x.p1.id()));
            let k = choose|k: int| 0 <= k < res.len() && ent_eq(#[trigger] res[k].2, ents0[i0]);
            assert(ent_eq(x, res[k].2));
        }
        if resolved(res).contains(x.p2.id()) {
            assert(touches(ents0[i0], x.p2.id()));
            let k = choose|k: int| 0 <= k < res.len() && ent_eq(#[trigger] res[k].2, ents0[i0]);
            assert(ent_eq(x, res[k].2));
        }
    }
    assert forall|i: int| #![trigger ents1[i]] 0 <= i < ents1.len() implies h.contains(
        pair_code(ents1[i].p1.id(), ents1[i].p2.id())) && ents1[i].p1.id() < 9 && ents1[i].p2.id() < 9
        && ents1[i].p1.id() != ents1[i].p2.id() by {
        assert(ents0.contains(ents1[i]));
    }
}

proof fn lemma_min_row<P>(rows: Seq<(P, u8)>, n: int)
    requires
        1 <= n <= rows.len(),
    ensures
        0 <= min_row(rows, n) < n,
        forall|k: int| 0 <= k < n ==> rows[min_row(rows, n)].1 <= #[trigger] rows[k].1,
        forall|k: int| 0 <= k < min_row(rows, n) ==> rows[min_row(rows, n)].1 < #[trigger] rows[k].1,
    decreases n,
{
    if n > 1 {
        lemma_min_row(rows, n - 1);
    }
}

/// Ties between winning lines: two lines of different players completed
/// at the smallest resolution order draw the game; a line whose order is
/// smaller than every other line's wins it for its player.
pub proof fn lemma_tie_break<P: Player>(marks: Seq<Option<Measurement<P>>>, no_moves: bool)
    ensures
        ({
            let rows = winning_rows(marks);
            (exists|i: int, j: int|
                0 <= i < rows.len() && 0 <= j < rows.len() && #[trigger] rows[i].1 == #[trigger] rows[j].1
                    && rows[i].0.uuid() != rows[j].0.uuid() && forall|k: int|
                    0 <= k < rows.len() ==> rows[i].1 <= #[trigger] rows[k].1) ==> quantum_outcome(
                marks,
                no_moves,
            ) == GameResult::<P>::Draw
        }),
        ({
            let rows = winning_rows(marks);
            forall|i: int|
                0 <= i < rows.len() && (forall|k: int|
                    0 <= k < rows.len() && k != i ==> rows[i].1 < #[trigger] rows[k].1) ==> quantum_outcome(
                    marks,
                    no_moves,
                ) == GameResult::Won(#[trigger] rows[i].0)
        }),
{
    let rows = winning_rows(marks);
    if rows.len() > 0 {
        lemma_min_row(rows, rows.len() as int);
        let w = rows[min_row(rows, rows.len() as int)];
        if exists|i: int, j: int|
            0 <= i < rows.len() && 0 <= j < rows.len() && #[trigger] rows[i].1 == #[trigger] rows[j].1
                && rows[i].0.uuid() != rows[j].0.uuid() && forall|k: int|
                0 <= k < rows.len() ==> rows[i].1 <= #[trigger] rows[k].1 {
            let (i, j) = choose|i: int, j: int|
                0 <= i < rows.len() && 0 <= j < rows.len() && #[trigger] rows[i].1 == #[trigger] rows[j].1
                    && rows[i].0.uuid() != rows[j].0.uuid() && forall|k: int|
                    0 <= k < rows.len() ==> rows[i].1 <= #[trigger] rows[k].1;
            assert(rows[i].1 <= w.1);
            if rows[i].0.uuid() != w.0.uuid() {
                assert(rows[i].1 == w.1);
            } else {
                assert(rows[j].1 == w.1);
            }
            assert(tied(rows));
        }
        assert forall|i: int|
            0 <= i < rows.len() && (forall|k: int|
                0 <= k < rows.len() && k != i ==> rows[i].1 < #[trigger] rows[k].1) implies quantum_outcome(
                marks,
                no_moves,
            ) == GameResult::Won(#[trigger] rows[i].0) by {
            let mi = min_row(rows, rows.len() as int);
            if mi != i {
                assert(rows[i].1 < rows[mi].1);
            }
            assert(!tied(rows));
        }
    }
}

proof fn lemma_pair_code(a: int, b: int, c: int, d: int)
    requires
        0 <= a < 9,
        0 <= b < 9,
        0 <= c < 9,
        0 <= d < 9,
    ensures
        pair_code(a, b) == pair_code(c, d) <==> ((a == c && b == d) || (a == d && b == c)),
        0 <= pair_code(a, b) < 81,
        (pair_code(a, b) / 9 == a && pair_code(a, b) % 9 == b) || (pair_code(a, b) / 9 == b
            && pair_code(a, b) % 9 == a),
{
}

/// The end from which a collapse of `e` starts: its first end when
/// `first`, else its second.
pub open spec fn start_of<P: Player>(e: Entanglement<P>, first: bool) -> int {
    if first {
        e.p1.id()
    } else {
        e.p2.id()
    }
}

/// The end that a collapse of `e` started from `start_of(e, first)` must
/// reach.
pub open spec fn end_of<P: Player>(e: Entanglement<P>, first: bool) -> int {
    if first {
        e.p2.id()
    } else {
        e.p1.id()
    }
}

/// What a measure move does: the pending entanglement collapses from the
/// chosen end, the resolved cells get the marks of the collapse, the other
/// marks stay, and the move reports the resolved cells.
pub open spec fn measured<P: Player>(
    before: QuantumTicTacToe<P>,
    after: QuantumTicTacToe<P>,
    mo: QuantumTicTacToeMoveMeas,
    jump: Option<Vec<Position>>,
) -> bool {
    let e = before.pending()->Some_0;
    let s = start_of(e, mo.first);
    let t = end_of(e, mo.first);
    &&& after.pending() is None
    &&& after.mover() == before.mover()
    &&& after.current_subscript() == before.current_subscript()
    &&& exists|res: Seq<Resolution<P>>|
        {
            &&& #[trigger] collapse(before.active(), e, s, t, res)
            &&& forall|c: int|
                0 <= c < 9 && resolved(res).contains(c) ==> exists|k: int|
                    0 <= k < res.len() && #[trigger] res[k].0.id() == c
                        && after.marks()[c] == Some(res[k].1) && forall|k2: int|
                        k < k2 < res.len() ==> (#[trigger] res[k2]).0.id() != c
            &&& after.active() == unconsumed(before.active(), res)
            &&& forall|x: Entanglement<P>|
                #[trigger] after.active().contains(x) <==> before.active().contains(x)
                    && !exists|k: int| 0 <= k < res.len() && ent_eq(#[trigger] res[k].2, x)
            &&& forall|c: int|
                0 <= c < 9 && !resolved(res).contains(c) ==> after.marks()[c]
                    == before.marks()[c]
            &&& jump is Some
            &&& jump->0@.len() == res.len()
            &&& forall|k: int|
                0 <= k < res.len() ==> (#[trigger] jump->0@[k]).id() == res[k].0.id()
        }
}

/// What an entangle move does: the mover's new entanglement of the two
/// cells joins the active list, with the subscript raised when the first
/// mover moves again; it is pending exactly when it closes a cycle; the
/// move goes to the next player, the marks stay, and no cells are
/// reported.
pub open spec fn entangled<P: Player>(
    before: QuantumTicTacToe<P>,
    after: QuantumTicTacToe<P>,
    mo: QuantumTicTacToeMoveEnt,
    jump: Option<Vec<Position>>,
) -> bool {
    let sub = if before.repeat_mover() {
        before.current_subscript() + 1
    } else {
        before.current_subscript() as int
    };
    let ent = Entanglement {
        p1: mo.p1,
        p2: mo.p2,
        player: before.mover(),
        subscript: sub as u8,
    };
    &&& after.current_subscript() == sub
    &&& after.active() == before.active().push(ent)
    &&& after.marks() == before.marks()
    &&& after.mover() == before.mover().next_spec()
    &&& (after.pending() is Some <==> cycle_from(
        after.active(),
        ent,
        mo.p1.id(),
        mo.p2.id(),
    ))
    &&& after.pending() is Some ==> after.pending()->Some_0 == ent
    &&& jump is None
}

proof fn lemma_measured_intro<P: Player>(
    before: QuantumTicTacToe<P>,
    after: QuantumTicTacToe<P>,
    mo: QuantumTicTacToeMoveMeas,
    jump: Option<Vec<Position>>,
    res: Seq<Resolution<P>>,
)
    requires
        ({
            let e = before.pending()->Some_0;
            let s = start_of(e, mo.first);
            let t = end_of(e, mo.first);
            collapse(before.active(), e, s, t, res)
        }),
        after.pending() is None,
        after.mover() == before.mover(),
        after.current_subscript() == before.current_subscript(),
        forall|c: int|
            0 <= c < 9 && resolved(res).contains(c) ==> exists|k: int|
                0 <= k < res.len() && #[trigger] res[k].0.id() == c
                    && after.marks()[c] == Some(res[k].1) && forall|k2: int|
                    k < k2 < res.len() ==> (#[trigger] res[k2]).0.id() != c,
        after.active() == unconsumed(before.active(), res),
        forall|x: Entanglement<P>|
            #[trigger] after.active().contains(x) <==> before.active().contains(x)
                && !exists|k: int| 0 <= k < res.len() && ent_eq(#[trigger] res[k].2, x),
        forall|c: int|
            0 <= c < 9 && !resolved(res).contains(c) ==> after.marks()[c]
                == before.marks()[c],
        jump is Some,
        jump->0@.len() == res.len(),
        forall|k: int|
            0 <= k < res.len() ==> (#[trigger] jump->0@[k]).id() == res[k].0.id(),
    ensures
        measured(before, after, mo, jump),
{
    let e = before.pending()->Some_0;
    let s = start_of(e, mo.first);
    let t = end_of(e, mo.first);
    assert(collapse(before.active(), e, s, t, res));
}

fn line_row_at<P: Player>(marks: &Vec<Option<Measurement<P>>>, k: usize) -> (r: Option<(P, u8)>)
    requires
        marks@.len() == 9,
        k < 8,
    ensures
        r == line_row(marks@, k as int),
{
    let (a, b, c) = line_cells(k);
    match (marks[a], marks[b], marks[c]) {
        (Some(m1), Some(m2), Some(m3)) => {
            if m1 == m2 && m2 == m3 {
                let s23 = if m2.subscript >= m3.subscript {
                    m2.subscript
                } else {
                    m3.subscript
                };
                let s = if m1.subscript >= s23 {
                    m1.subscript
                } else {
                    s23
                };
                Some((m1.player, s))
            } else {
                None
            }
        },
        _ => None,
    }
}


/// The outcome of a quantum game with these classical marks, where
/// `no_moves` says whether the game has no legal move left.
pub fn judge_marks<P: Player>(marks: &Vec<Option<Measurement<P>>>, no_moves: bool) -> (r: GameResult<P>)
    requires
        marks@.len() == 9,
    ensures
        r == quantum_outcome(marks@, no_moves),
{
    let mut rows: Vec<(P, u8)> = Vec::new();
    let mut k: usize = 0;
    while k < 8
        invariant
            k <= 8,
            marks@.len() == 9,
            rows@ == rows_upto(marks@, k as int),
        decreases 8 - k,
    {
        match line_row_at(marks, k) {
            Some(row) => rows.push(row),
            None => {},
        }
        k += 1;
    }
    let ghost all = rows@;
    if rows.len() > 0 {
        let mut mi: usize = 0;
        let mut i: usize = 1;
        while i < rows.len()
            invariant
                1 <= i <= rows@.len(),
                rows@ == all,
                mi == min_row(all, i as int),
                mi < i,
            decreases rows.len() - i,
        {
            if rows[i].1 < rows[mi].1 {
                mi = i;
            }
            i += 1;
        }
        let mut tie = false;
        let mut j: usize = 0;
        while j < rows.len()
            invariant
                j <= rows@.len(),
                rows@ == all,
                mi == min_row(all, all.len() as int),
                mi < all.len(),
                tie == exists|q: int|
                    0 <= q < j && #[trigger] all[q].1 == all[mi as int].1 && all[q].0.uuid()
                        != all[mi as int].0.uuid(),
            decreases rows.len() - j,
        {
            if rows[j].1 == rows[mi].1 && !same_player(&rows[j].0, &rows[mi].0) {
                tie = true;
            }
            j += 1;
        }
        if tie {
            GameResult::Draw
        } else {
            GameResult::Won(rows[mi].0)
        }
    } else if no_moves {
        GameResult::Draw
    } else {
        GameResult::Incomplete
    }
}

impl<P: Player> QuantumTicTacToe<P> {
    /// The mover is the player who made the last entangle move, or the
    /// measure that followed it.
    pub closed spec fn repeat_mover(&self) -> bool {
        self.player.uuid() == self.fplayer.uuid()
    }

    /// The player who moved first, or who made the last measure.
    pub closed spec fn first_mover(&self) -> P {
        self.fplayer
    }

    /// What a consistent state guarantees: nine cells; active
    /// entanglements that join two distinct unmarked cells, no two of them
    /// the same pair, and no cycle among them but through the pending one;
    /// a pending entanglement is active and closes a cycle.
    pub proof fn lemma_wf(self)
        requires
            self.wf(),
        ensures
            self.marks().len() == 9,
            ents_ok(self.active()),
            ents_unmarked(self.active(), self.marks()),
            pairs_distinct(self.active()),
            acyclic(self.active(), self.pending()),
            self.pending() is Some ==> {
                let e = self.pending()->Some_0;
                &&& self.active().contains(e)
                &&& cycle_from(self.active(), e, e.p1.id(), e.p2.id())
            },
    {
    }

    /// Handing the move over changes nothing but the mover.
    pub proof fn lemma_with_player(self, p: P)
        ensures
            self.with_player(p).mover() == p,
            self.with_player(p).marks() == self.marks(),
            self.with_player(p).active() == self.active(),
            self.with_player(p).pending() == self.pending(),
            self.with_player(p).current_subscript() == self.current_subscript(),
            self.with_player(p).first_mover() == self.first_mover(),
            self.with_player(p).wf() == self.wf(),
    {
    }

    proof fn lemma_ent_moves(&self, n: int)
        requires
            0 <= n <= 81,
        ensures
            forall|i: int|
                0 <= i < self.ent_moves_upto(n).len() ==> {
                    let mv = #[trigger] self.ent_moves_upto(n)[i];
                    &&& mv is Entangle
                    &&& self.ent_ok(mv->Entangle_0.p1, mv->Entangle_0.p2)
                },
            forall|t: int|
                0 <= t < n && t / 9 < t % 9 && #[trigger] self.ent_ok(
                    Position::at(t / 9),
                    Position::at(t % 9),
                ) ==> self.ent_moves_upto(n).len() > 0,
        decreases n,
    {
        if n > 0 {
            self.lemma_ent_moves(n - 1);
            let prev = self.ent_moves_upto(n - 1);
            assert forall|i: int| 0 <= i < self.ent_moves_upto(n).len() implies {
                let mv = #[trigger] self.ent_moves_upto(n)[i];
                &&& mv is Entangle
                &&& self.ent_ok(mv->Entangle_0.p1, mv->Entangle_0.p2)
            } by {
                if i < prev.len() {
                    assert(self.ent_moves_upto(n)[i] == prev[i]);
                }
            }
        }
    }

    proof fn lemma_ent_moves_contain(&self, n: int, t: int)
        requires
            0 <= t < n <= 81,
            t / 9 < t % 9,
            self.ent_ok(Position::at(t / 9), Position::at(t % 9)),
        ensures
            self.ent_moves_upto(n).contains(candidate(t)),
        decreases n,
    {
        if t < n - 1 {
            self.lemma_ent_moves_contain(n - 1, t);
            let prev = self.ent_moves_upto(n - 1);
            let k = choose|k: int| 0 <= k < prev.len() && prev[k] == candidate(t);
            assert(self.ent_moves_upto(n)[k] == candidate(t));
        } else {
            let prev = self.ent_moves_upto(n - 1);
            assert(self.ent_moves_upto(n)[prev.len() as int] == candidate(t));
        }
    }

    /// Every legal entangle move is listed, with its cells in increasing
    /// order.
    pub proof fn lemma_valid_listed(&self, e: QuantumTicTacToeMoveEnt)
        requires
            self.inv(),
            self.valid(QuantumMove::Entangle(e)),
        ensures
            self.moves().contains(candidate(pair_code(e.p1.id(), e.p2.id()))),
    {
        let (a, b) = (e.p1.id(), e.p2.id());
        let t = pair_code(a, b);
        lemma_pair_code(a, b, a, b);
        if a < b {
            assert(t / 9 == a && t % 9 == b);
        } else {
            assert(t / 9 == b && t % 9 == a);
        }
        assert(self.ent_ok(Position::at(t / 9), Position::at(t % 9)));
        self.lemma_ent_moves_contain(81, t);
    }

    proof fn lemma_same_ent_ok(&self, other: &Self, a: Position, b: Position)
        requires
            self.classic_marks@ == other.classic_marks@,
            self.ents@ == other.ents@,
        ensures
            self.ent_ok(a, b) == other.ent_ok(a, b),
    {
    }

    proof fn lemma_same_ent_moves(&self, other: &Self, n: int)
        requires
            self.classic_marks@ == other.classic_marks@,
            self.ents@ == other.ents@,
        ensures
            self.ent_moves_upto(n) == other.ent_moves_upto(n),
        decreases n,
    {
        if n > 0 {
            self.lemma_same_ent_moves(other, n - 1);
            let t = n - 1;
            assert(self.ent_ok(Position::at(t / 9), Position::at(t % 9)) == other.ent_ok(
                Position::at(t / 9),
                Position::at(t % 9),
            ));
        }
    }

    /// Whether cells `a` and `b` can be entangled now.
    fn can_entangle(&self, a: Position, b: Position) -> (r: bool)
        requires
            self.classic_marks@.len() == 9,
        ensures
            r == self.ent_ok(a, b),
    {
        let ai = a.get_cid();
        let bi = b.get_cid();
        if ai >= 9 || bi >= 9 || ai == bi {
            return false;
        }
        if self.classic_marks[ai as usize].is_some() || self.classic_marks[bi as usize].is_some() {
            return false;
        }
        let mut i: usize = 0;
        while i < self.ents.len()
            invariant
                i <= self.ents@.len(),
                ai == a.id(),
                bi == b.id(),
                forall|j: int| 0 <= j < i ==> !joins(#[trigger] self.ents@[j], a.id(), b.id()),
            decreases self.ents.len() - i,
        {
            let e = &self.ents[i];
            let (e1, e2) = (e.p1.get_cid(), e.p2.get_cid());
            if (e1 == ai && e2 == bi) || (e1 == bi && e2 == ai) {
                assert(joins(self.ents@[i as int], a.id(), b.id()));
                return false;
            }
            i += 1;
        }
        true
    }

    fn list_moves(&self) -> (r: Vec<QuantumMove>)
        requires
            self.classic_marks@.len() == 9,
        ensures
            r@ == self.moves_spec(),
    {
        let mut v: Vec<QuantumMove> = Vec::new();
        if self.do_meas.is_some() {
            v.push(QuantumMove::Measure(QuantumTicTacToeMoveMeas { first: true }));
            v.push(QuantumMove::Measure(QuantumTicTacToeMoveMeas { first: false }));
            assert(v@ =~= self.moves_spec());
        } else {
            let mut t: usize = 0;
            while t < 81
                invariant
                    t <= 81,
                    self.classic_marks@.len() == 9,
                    v@ == self.ent_moves_upto(t as int),
                decreases 81 - t,
            {
                let i1 = t / 9;
                let i2 = t % 9;
                if i1 < i2 {
                    let p1 = Position::from_cid(i1 as u8);
                    let p2 = Position::from_cid(i2 as u8);
                    if self.can_entangle(p1, p2) {
                        v.push(QuantumMove::Entangle(QuantumTicTacToeMoveEnt { p1, p2 }));
                    }
                }
                assert(v@ =~= self.ent_moves_upto(t + 1));
                t += 1;
            }
        }
        v
    }

    /// The outcome, read off the classical marks.
    fn check_win(&self) -> (r: GameResult<P>)
        requires
            self.classic_marks@.len() == 9,
        ensures
            r == quantum_outcome(self.classic_marks@, self.moves_spec().len() == 0),
    {
        let no_moves = self.list_moves().len() == 0;
        judge_marks(&self.classic_marks, no_moves)
    }
}

impl<P: Player> QuantumTicTacToe<P> {
    /// Writes the marks of a collapse, cell by cell, and drops the
    /// entanglements it consumed; returns the resolved cells in order.
    #[verifier::rlimit(100)]
    fn apply_collapse(&mut self, meas: &Vec<Resolution<P>>) -> (po: Vec<Position>)
        requires
            old(self).classic_marks@.len() == 9,
            forall|q: int| 0 <= q < meas@.len() ==> (#[trigger] meas@[q]).0.id() < 9,
            pairs_distinct(old(self).ents@),
        ensures
            final(self).classic_marks@.len() == 9,
            pairs_distinct(final(self).ents@),
            final(self).ents@ == unconsumed(old(self).ents@, meas@),
            forall|q: int, i: int|
                0 <= q < meas@.len() && 0 <= i < final(self).ents@.len() ==> !ent_eq(
                    #[trigger] final(self).ents@[i],
                    #[trigger] meas@[q].2,
                ),
            final(self).history == old(self).history,
            final(self).subscript == old(self).subscript,
            final(self).player == old(self).player,
            final(self).fplayer == old(self).fplayer,
            final(self).do_meas == old(self).do_meas,
            forall|i: int| 0 <= i < final(self).ents@.len() ==> old(self).ents@.contains(#[trigger] final(self).ents@[i]),
            forall|i: int|
                0 <= i < old(self).ents@.len() ==> final(self).ents@.contains(#[trigger] old(self).ents@[i]) || exists|
                    q: int,
                |
                    0 <= q < meas@.len() && ent_eq(old(self).ents@[i], #[trigger] meas@[q].2),
            forall|c: int| 0 <= c < 9 && old(self).classic_marks@[c] is Some ==> #[trigger] final(self).classic_marks@[c] is Some,
            forall|q: int| 0 <= q < meas@.len() ==> final(self).classic_marks@[(#[trigger] meas@[q]).0.id()] is Some,
            forall|c: int|
                #![trigger final(self).classic_marks@[c]]
                0 <= c < 9 && (exists|q: int| 0 <= q < meas@.len() && #[trigger] meas@[q].0.id() == c)
                    ==> exists|q: int|
                    0 <= q < meas@.len() && #[trigger] meas@[q].0.id() == c && final(self).classic_marks@[c]
                        == Some(meas@[q].1) && forall|q2: int|
                        q < q2 < meas@.len() ==> (#[trigger] meas@[q2]).0.id() != c,
            forall|c: int|
                0 <= c < 9 && !(exists|q: int| 0 <= q < meas@.len() && #[trigger] meas@[q].0.id() == c)
                    ==> final(self).classic_marks@[c] == old(self).classic_marks@[c],
            po@.len() == meas@.len(),
            forall|q: int| 0 <= q < meas@.len() ==> (#[trigger] po@[q]).wf() && po@[q].id() == meas@[q].0.id(),
    {
        let ghost ents0 = self.ents@;
        let ghost marks0 = self.classic_marks@;
        proof {
            lemma_unconsumed_none(ents0, meas@.take(0));
        }
        let mut po: Vec<Position> = Vec::new();
        let mut k: usize = 0;
        while k < meas.len()
            invariant
                k <= meas@.len(),
                forall|q: int| 0 <= q < meas@.len() ==> (#[trigger] meas@[q]).0.id() < 9,
                pairs_distinct(self.ents@),
                self.ents@ == unconsumed(ents0, meas@.take(k as int)),
                forall|q: int, i: int|
                    0 <= q < k && 0 <= i < self.ents@.len() ==> !ent_eq(
                        #[trigger] self.ents@[i],
                        #[trigger] meas@[q].2,
                    ),
                self.classic_marks@.len() == 9,
                self.history == old(self).history,
                self.subscript == old(self).subscript,
                self.player == old(self).player,
                self.fplayer == old(self).fplayer,
                self.do_meas == old(self).do_meas,
                ents0 == old(self).ents@,
                marks0 == old(self).classic_marks@,
                forall|i: int| 0 <= i < self.ents@.len() ==> ents0.contains(#[trigger] self.ents@[i]),
                forall|i: int|
                    0 <= i < ents0.len() ==> self.ents@.contains(#[trigger] ents0[i]) || exists|
                        q: int,
                    |
                        0 <= q < k && ent_eq(ents0[i], #[trigger] meas@[q].2),
                forall|c: int| 0 <= c < 9 && marks0[c] is Some ==> #[trigger] self.classic_marks@[c] is Some,
                forall|q: int| 0 <= q < k ==> self.classic_marks@[(#[trigger] meas@[q]).0.id()] is Some,
                forall|c: int|
                    #![trigger self.classic_marks@[c]]
                    0 <= c < 9 && (exists|q: int| 0 <= q < k && #[trigger] meas@[q].0.id() == c)
                        ==> exists|q: int|
                        0 <= q < k && #[trigger] meas@[q].0.id() == c && self.classic_marks@[c]
                            == Some(meas@[q].1) && forall|q2: int|
                            q < q2 < k ==> (#[trigger] meas@[q2]).0.id() != c,
                forall|c: int|
                    0 <= c < 9 && !(exists|q: int| 0 <= q < k && #[trigger] meas@[q].0.id() == c)
                        ==> self.classic_marks@[c] == marks0[c],
                po@.len() == k,
                forall|q: int| 0 <= q < k ==> (#[trigger] po@[q]).wf() && po@[q].id() == meas@[q].0.id(),
            decreases meas.len() - k,
        {
            let (pos, me, ent) = meas[k];
            let ghost ents_before = self.ents@;
            let ghost marks_before = self.classic_marks@;
            self.remove_ent(ent);
            proof {
                lemma_removal(ents_before, self.ents@, ent);
                lemma_without_remove(ents_before, ent, self.ents@);
                lemma_unconsumed_push(ents0, meas@.take(k as int), meas@[k as int]);
                assert(meas@.take(k as int).push(meas@[k as int]) =~= meas@.take(k + 1));
                assert forall|q: int, i: int|
                    0 <= q < k + 1 && 0 <= i < self.ents@.len() implies !ent_eq(
                        #[trigger] self.ents@[i],
                        #[trigger] meas@[q].2,
                    ) by {
                    if q < k {
                        let i0 = choose|i0: int| 0 <= i0 < ents_before.len() && ents_before[i0] == self.ents@[i];
                        assert(!ent_eq(ents_before[i0], meas@[q].2));
                    }
                }
            }
            self.classic_marks[pos.get_cid() as usize] = Some(me);
            po.push(Position::from_cid(pos.get_cid()));
            proof {
                let ci = pos.id();
                assert forall|i: int| 0 <= i < self.ents@.len() implies ents0.contains(#[trigger] self.ents@[i]) by {
                    if self.ents@ != ents_before {
                        let j = choose|j: int|
                            0 <= j < ents_before.len() && ent_eq(ents_before[j], ent)
                                && self.ents@ == ents_before.remove(j);
                        if i < j {
                            assert(self.ents@[i] == ents_before[i]);
                        } else {
                            assert(self.ents@[i] == ents_before[i + 1]);
                        }
                    }
                }
                assert forall|i: int|
                    0 <= i < ents0.len() implies self.ents@.contains(#[trigger] ents0[i]) || exists|q: int|
                        0 <= q < k + 1 && ent_eq(ents0[i], #[trigger] meas@[q].2) by {
                    if ents_before.contains(ents0[i]) {
                        let j0 = choose|j0: int| 0 <= j0 < ents_before.len() && ents_before[j0] == ents0[i];
                        if self.ents@ == ents_before {
                            assert(self.ents@[j0] == ents0[i]);
                        } else {
                            let j = choose|j: int|
                                0 <= j < ents_before.len() && ent_eq(ents_before[j], ent)
                                    && self.ents@ == ents_before.remove(j);
                            if j0 < j {
                                assert(self.ents@[j0] == ents0[i]);
                            } else if j0 > j {
                                assert(self.ents@[j0 - 1] == ents0[i]);
                            } else {
                                assert(ent_eq(ents0[i], meas@[k as int].2));
                            }
                        }
                    } else {
                        let q = choose|q: int| 0 <= q < k && ent_eq(ents0[i], #[trigger] meas@[q].2);
                        assert(ent_eq(ents0[i], meas@[q].2));
                    }
                }
                assert forall|c: int|
                    #![trigger self.classic_marks@[c]]
                    0 <= c < 9 && (exists|q: int| 0 <= q < k + 1 && #[trigger] meas@[q].0.id() == c)
                        implies exists|q: int|
                        0 <= q < k + 1 && #[trigger] meas@[q].0.id() == c && self.classic_marks@[c]
                            == Some(meas@[q].1) && forall|q2: int|
                            q < q2 < k + 1 ==> (#[trigger] meas@[q2]).0.id() != c by {
                    if c == ci {
                        assert(meas@[k as int].0.id() == c);
                    } else {
                        let q = choose|q: int| 0 <= q < k + 1 && #[trigger] meas@[q].0.id() == c;
                        assert(q < k);
                        let q2 = choose|q2: int|
                            0 <= q2 < k && #[trigger] meas@[q2].0.id() == c && marks_before[c]
                                == Some(meas@[q2].1) && forall|q3: int|
                                q2 < q3 < k ==> (#[trigger] meas@[q3]).0.id() != c;
                        assert(self.classic_marks@[c] == marks_before[c]);
                        assert forall|q3: int| q2 < q3 < k + 1 implies (#[trigger] meas@[q3]).0.id() != c by {
                            if q3 == k {
                                assert(meas@[k as int].0.id() == ci);
                            }
                        }
                    }
                }
                assert forall|c: int|
                    0 <= c < 9 && !(exists|q: int| 0 <= q < k + 1 && #[trigger] meas@[q].0.id() == c)
                        implies self.classic_marks@[c] == marks0[c] by {
                    assert(meas@[k as int].0.id() != c);
                }
                assert forall|q: int| 0 <= q < k + 1 implies self.classic_marks@[(#[trigger] meas@[q]).0.id()] is Some by {
                    if q < k {
                        assert(marks_before[meas@[q].0.id()] is Some);
                    }
                }
            }
            k += 1;
        }
        assert(meas@.take(meas@.len() as int) =~= meas@);
        po
    }

    /// The measure phase: collapses the pending entanglement from the end
    /// that `mo` chooses and writes the resolved marks.
    #[verifier::rlimit(100)]
    #[verifier::spinoff_prover]
    fn measure(&mut self, mo: QuantumTicTacToeMoveMeas) -> (r: MoveData<P>)
        requires
            old(self).inv(),
            old(self).do_meas is Some,
        ensures
            final(self).inv(),
            r.next_player == final(self).player,
            crate::generic::jump_wf(r.jump),
            final(self).progress() < old(self).progress(),
            r.result == quantum_outcome(final(self).marks(), final(self).moves().len() == 0),
            measured(*old(self), *final(self), mo, r.jump),
    {
        let ghost old_self = *self;
        let e = match self.do_meas {
            Some(e) => e,
            None => vstd::pervasive::unreached(),
        };
        proof {
            if !mo.first {
                lemma_cycle_symmetric(self.ents@, e, e.p1.id(), e.p2.id());
            }
        }
        match self.try_measure(e, mo.first) {
            Some(meas) => {
                let ghost ents0 = self.ents@;
                let ghost marks0 = self.classic_marks@;
                let ghost s = start_of(e, mo.first);
                let ghost t = end_of(e, mo.first);
                proof {
                    assert forall|q: int| 0 <= q < meas@.len() implies (#[trigger] meas@[q]).0.id() < 9 by {
                        reveal(collapse);
                        assert(step_ok(ents0, e, meas@[q]));
                    }
                }
                let po = self.apply_collapse(&meas);
                self.fplayer = self.player;
                self.do_meas = None;
                proof {
                    lemma_collapse_keeps_history(
                        ents0,
                        marks0,
                        self.ents@,
                        self.classic_marks@,
                        self.history@,
                        meas@,
                        e,
                        s,
                        t,
                    );
                    assert(meas@.len() > 0 && meas@[0].2 == e) by {
                        reveal(collapse);
                    }
                    assert forall|i: int| 0 <= i < self.ents@.len() implies ents0.contains(
                        #[trigger] self.ents@[i],
                    ) && !skipped(self.ents@[i], Some(e)) by {
                        assert(!ent_eq(self.ents@[i], meas@[0].2));
                    }
                    lemma_acyclic_sub(ents0, Some(e), self.ents@);
                }
                let result = self.check_win();
                let r = MoveData { jump: Some(po), next_player: self.player, result };
                proof {
                    lemma_int_range(0, 81);
                    lemma_len_subset(self.history@, set_int_range(0, 81));
                    let res = meas@;
                    assert forall|c: int|
                        0 <= c < 9 && resolved(res).contains(c) implies exists|k: int|
                            0 <= k < res.len() && #[trigger] res[k].0.id() == c && self.marks()[c]
                                == Some(res[k].1) && forall|k2: int|
                                k < k2 < res.len() ==> (#[trigger] res[k2]).0.id() != c by {
                        assert(exists|q: int| 0 <= q < res.len() && #[trigger] res[q].0.id() == c);
                    }
                    assert forall|x: Entanglement<P>|
                        #[trigger] self.active().contains(x) <==> old_self.active().contains(x)
                            && !exists|k: int| 0 <= k < res.len() && ent_eq(#[trigger] res[k].2, x) by {
                        if self.active().contains(x) {
                            let i = choose|i: int| 0 <= i < self.ents@.len() && self.ents@[i] == x;
                            assert(ents0.contains(self.ents@[i]));
                            if exists|k: int| 0 <= k < res.len() && ent_eq(#[trigger] res[k].2, x) {
                                let k = choose|k: int| 0 <= k < res.len() && ent_eq(#[trigger] res[k].2, x);
                                assert(!ent_eq(self.ents@[i], res[k].2));
                            }
                        }
                        if old_self.active().contains(x) && !exists|k: int|
                            0 <= k < res.len() && ent_eq(#[trigger] res[k].2, x) {
                            let i = choose|i: int| 0 <= i < ents0.len() && ents0[i] == x;
                            assert(self.ents@.contains(ents0[i]) || exists|q: int|
                                0 <= q < res.len() && ent_eq(ents0[i], #[trigger] res[q].2));
                            if !self.ents@.contains(ents0[i]) {
                                let q = choose|q: int| 0 <= q < res.len() && ent_eq(ents0[i], #[trigger] res[q].2);
                                assert(ent_eq(res[q].2, x));
                            }
                        }
                    }
                    assert forall|c: int|
                        0 <= c < 9 && !resolved(res).contains(c) implies self.marks()[c]
                            == old_self.marks()[c] by {
                        assert(!(exists|q: int| 0 <= q < res.len() && #[trigger] res[q].0.id() == c));
                    }
                    assert forall|k: int| 0 <= k < res.len() implies (#[trigger] r.jump->0@[k]).id() == res[k].0.id() by {}
                    lemma_measured_intro(old_self, *self, mo, r.jump, res);
                }
                r
            },
            None => vstd::pervasive::unreached(),
        }
    }

    /// The entangle phase: joins the two cells of `mo` for the player to
    /// move, and marks the new entanglement pending if it closes a cycle.
    #[verifier::rlimit(100)]
    #[verifier::spinoff_prover]
    fn entangle(&mut self, mo: QuantumTicTacToeMoveEnt) -> (r: MoveData<P>)
        requires
            old(self).inv(),
            old(self).do_meas is None,
            old(self).ent_ok(mo.p1, mo.p2),
        ensures
            final(self).inv(),
            r.next_player == final(self).player,
            crate::generic::jump_wf(r.jump),
            final(self).progress() < old(self).progress(),
            r.result == quantum_outcome(final(self).marks(), final(self).moves().len() == 0),
            ({
            let sub = if old(self).repeat_mover() {
                old(self).current_subscript() + 1
            } else {
                old(self).current_subscript() as int
            };
            let ent = Entanglement {
                p1: mo.p1,
                p2: mo.p2,
                player: old(self).mover(),
                subscript: sub as u8,
            };
            &&& final(self).current_subscript() == sub
            &&& final(self).active() == old(self).active().push(ent)
            &&& final(self).marks() == old(self).marks()
            &&& final(self).mover() == old(self).mover().next_spec()
            &&& (final(self).pending() is Some <==> cycle_from(
                final(self).active(),
                ent,
                mo.p1.id(),
                mo.p2.id(),
            ))
            &&& final(self).pending() is Some ==> final(self).pending()->Some_0 == ent
            &&& r.jump is None
            }),
    {
        proof {
            lemma_int_range(0, 81);
            lemma_len_subset(self.history@, set_int_range(0, 81));
        }
        if same_player(&self.player, &self.fplayer) {
            self.subscript = self.subscript + 1;
        }
        let ent = Entanglement {
            p1: mo.p1,
            p2: mo.p2,
            player: self.player,
            subscript: self.subscript,
        };
        let ghost code = pair_code(mo.p1.id(), mo.p2.id());
        proof {
            lemma_pair_code(mo.p1.id(), mo.p2.id(), mo.p1.id(), mo.p2.id());
            assert(!self.history@.contains(code)) by {
                if self.history@.contains(code) {
                    if exists|i: int|
                        0 <= i < self.ents@.len() && pair_code(self.ents@[i].p1.id(), self.ents@[i].p2.id())
                            == code {
                        let i = choose|i: int|
                            0 <= i < self.ents@.len() && pair_code(self.ents@[i].p1.id(), self.ents@[i].p2.id())
                                == code;
                        assert(ents_ok(self.ents@));
                        lemma_pair_code(self.ents@[i].p1.id(), self.ents@[i].p2.id(), mo.p1.id(), mo.p2.id());
                        assert(!joins(self.ents@[i], mo.p1.id(), mo.p2.id()));
                    }
                }
            }
        }
        let ghost ents0 = self.ents@;
        let ghost h0 = self.history@;
        self.ents.push(ent);
        self.history = Ghost(self.history@.insert(code));
        proof {
            assert(set_int_range(0, 81).contains(code));
            assert(self.history@.subset_of(set_int_range(0, 81)));
            lemma_len_subset(self.history@, set_int_range(0, 81));
            assert(h0.finite());
            assert(self.history@.len() == h0.len() + 1);
            assert forall|i: int| #![trigger self.ents@[i]] 0 <= i < self.ents@.len() implies self.history@.contains(
                pair_code(self.ents@[i].p1.id(), self.ents@[i].p2.id())) by {
                if i < ents0.len() {
                    assert(self.ents@[i] == ents0[i]);
                }
            }
            assert forall|c: int| #[trigger] self.history@.contains(c) implies (exists|i: int|
                0 <= i < self.ents@.len() && pair_code(self.ents@[i].p1.id(), self.ents@[i].p2.id())
                    == c) || (self.classic_marks@[c / 9] is Some && self.classic_marks@[c % 9] is Some) by {
                if c == code {
                    assert(pair_code(self.ents@[ents0.len() as int].p1.id(), self.ents@[ents0.len() as int].p2.id()) == c);
                } else if exists|i: int|
                    0 <= i < ents0.len() && pair_code(ents0[i].p1.id(), ents0[i].p2.id()) == c {
                    let i = choose|i: int|
                        0 <= i < ents0.len() && pair_code(ents0[i].p1.id(), ents0[i].p2.id()) == c;
                    assert(self.ents@[i] == ents0[i]);
                }
            }
            assert(ents_ok(self.ents@)) by {
                assert forall|i: int| #![trigger self.ents@[i]] 0 <= i < self.ents@.len() implies self.ents@[i].p1.id() < 9
                    && self.ents@[i].p2.id() < 9 && self.ents@[i].p1.id() != self.ents@[i].p2.id() by {
                    if i < ents0.len() {
                        assert(self.ents@[i] == ents0[i]);
                    }
                }
            }
        }
        proof {
            assert forall|i: int| 0 <= i < ents0.len() implies !ent_eq(#[trigger] ents0[i], ent) by {
                assert(!joins(ents0[i], mo.p1.id(), mo.p2.id()));
            }
            assert(self.ents@ == ents0.push(ent));
        }
        if self.try_measure(ent, true).is_some() {
            self.do_meas = Some(ent);
            assert(self.ents@[ents0.len() as int] == ent);
            proof {
                lemma_acyclic_closing(ents0, ent);
            }
        } else {
            proof {
                lemma_acyclic_open(ents0, ent);
            }
        }
        self.player = self.player.next_player();
        let result = self.check_win();
        MoveData { jump: None, next_player: self.player, result }
    }
}

impl<P: Player> GenericGame<P> for QuantumTicTacToe<P> {
    type Move = QuantumMove;

    closed spec fn wf(&self) -> bool {
        self.inv()
    }

    closed spec fn mover(&self) -> P {
        self.player
    }

    open spec fn valid(&self, m: QuantumMove) -> bool {
        match m {
            QuantumMove::Measure(_) => self.pending() is Some,
            QuantumMove::Entangle(e) => self.pending() is None && self.ent_ok(e.p1, e.p2),
        }
    }

    open spec fn moves(&self) -> Seq<QuantumMove> {
        self.moves_spec()
    }

    closed spec fn progress(&self) -> nat {
        (2 * (81 - self.history@.len()) + if self.do_meas is Some {
            1int
        } else {
            0int
        }) as nat
    }

    /// An entangle move or a measure, as `entangled` and `measured` say;
    /// either way the outcome is read off the marks and the report names
    /// the next mover.
    open spec fn moved(&self, m: QuantumMove, after: Self, r: MoveData<P>) -> bool {
        &&& r.result == quantum_outcome(after.marks(), after.moves().len() == 0)
        &&& r.next_player == after.mover()
        &&& match m {
            QuantumMove::Measure(mo) => self.pending() is Some && measured(*self, after, mo, r.jump),
            QuantumMove::Entangle(mo) => entangled(*self, after, mo, r.jump),
        }
    }

    closed spec fn with_player(&self, p: P) -> Self {
        QuantumTicTacToe { player: p, ..*self }
    }

    proof fn lemma_moves(&self) {
        self.lemma_ent_moves(81);
        if self.do_meas is None {
            assert forall|m: QuantumMove| self.moves().len() == 0 implies !self.valid(m) by {
                if let QuantumMove::Entangle(e) = m {
                    if self.ent_ok(e.p1, e.p2) {
                        let (a, b) = (e.p1.id(), e.p2.id());
                        let (lo, hi) = if a < b {
                            (a, b)
                        } else {
                            (b, a)
                        };
                        let t = lo * 9 + hi;
                        assert(t / 9 == lo && t % 9 == hi);
                        assert(self.ent_ok(Position::at(t / 9), Position::at(t % 9)));
                    }
                }
            }
        }
    }

    fn create(player: P, pos: Position) -> (r: Self) {
        Self::new(player)
    }

    #[verifier::rlimit(100)]
    fn mov(&mut self, m: QuantumMove) -> (r: MoveData<P>)
    {
        match m {
            QuantumMove::Measure(mo) => self.measure(mo),
            QuantumMove::Entangle(mo) => self.entangle(mo),
        }
    }

    fn get_valid_moves(&self) -> (r: Vec<QuantumMove>) {
        self.list_moves()
    }

    fn is_valid_move(&self, m: &QuantumMove) -> (r: bool) {
        match m {
            QuantumMove::Measure(_) => self.do_meas.is_some(),
            QuantumMove::Entangle(e) => self.do_meas.is_none() && self.can_entangle(e.p1, e.p2),
        }
    }

    fn set_player(&mut self, player: P)
        ensures
            final(self).mover() == player,
            final(self).first_mover() == old(self).first_mover(),
            final(self).current_subscript() == old(self).current_subscript(),
            final(self).marks() == old(self).marks(),
            final(self).active() == old(self).active(),
            final(self).pending() == old(self).pending(),
    {
        let ghost before = *self;
        self.player = player;
        proof {
            self.lemma_same_ent_moves(&before, 81);
            assert forall|m: QuantumMove| self.valid(m) == before.valid(m) by {
                if let QuantumMove::Entangle(e) = m {
                    self.lemma_same_ent_ok(&before, e.p1, e.p2);
                }
            }
        }
    }

    fn get_player(&self) -> (r: P) {
        self.player
    }

    fn duplicate(&self) -> (r: Self) {
        let mut classic_marks: Vec<Option<Measurement<P>>> = Vec::new();
        let mut i: usize = 0;
        while i < self.classic_marks.len()
            invariant
                i <= self.classic_marks@.len(),
                classic_marks@ == self.classic_marks@.take(i as int),
            decreases self.classic_marks.len() - i,
        {
            classic_marks.push(self.classic_marks[i]);
            i += 1;
            assert(classic_marks@ =~= self.classic_marks@.take(i as int));
        }
        let mut ents: Vec<Entanglement<P>> = Vec::new();
        let mut k: usize = 0;
        while k < self.ents.len()
            invariant
                k <= self.ents@.len(),
                ents@ == self.ents@.take(k as int),
            decreases self.ents.len() - k,
        {
            ents.push(self.ents[k]);
            k += 1;
            assert(ents@ =~= self.ents@.take(k as int));
        }
        assert(classic_marks@ =~= self.classic_marks@);
        assert(ents@ =~= self.ents@);
        let r = QuantumTicTacToe {
            classic_marks,
            ents,
            player: self.player,
            fplayer: self.fplayer,
            subscript: self.subscript,
            do_meas: self.do_meas,
            history: Ghost(self.history@),
        };
        proof {
            r.lemma_same_ent_moves(self, 81);
            assert forall|m: QuantumMove| r.valid(m) == self.valid(m) by {
                if let QuantumMove::Entangle(e) = m {
                    r.lemma_same_ent_ok(self, e.p1, e.p2);
                }
            }
        }
        r
    }
}

} // verus!
