use rand::rngs::StdRng;
use rand::seq::IteratorRandom;
use std::time::{Duration, Instant};
use vstd::prelude::*;

use crate::generic::{same_player, GameResult, GenericGame, Player};

verus! {

#[verifier::external_type_specification]
#[verifier::external_body]
pub struct ExStdRng(StdRng);

#[verifier::external_type_specification]
#[verifier::external_body]
pub struct ExInstant(Instant);

/// Relies on std's `Instant::now`: the current instant; nothing is promised
/// of it.
pub assume_specification[ Instant::now ]() -> Instant;

/// Relies on std's `Instant::elapsed`: the time since the instant; nothing
/// is promised of it.
pub assume_specification[ Instant::elapsed ](this: &Instant) -> Duration;

/// Relies on std's `Duration::as_millis`: the whole milliseconds; nothing is
/// promised of them here.
pub assume_specification[ Duration::as_millis ](this: &Duration) -> u128;

/// Relies on rand's `IteratorRandom::choose`, which returns `None` exactly
/// when the iterator is empty and otherwise one of its items.
#[verifier::external_body]
fn choose_move<M: Copy>(moves: &Vec<M>, rng: &mut StdRng) -> (r: Option<M>)
    ensures
        r is None <==> moves@.len() == 0,
        r is Some ==> moves@.contains(r->Some_0),
{
    moves.iter().choose(rng).copied()
}

/// A search budget: rollouts for a total time in milliseconds shared by the
/// candidate moves, or a number of rollouts per candidate; either may carry
/// the budget with which the opponent's replies are searched.
#[derive(Debug)]
pub enum BotMode {
    Time(u64, Option<Box<BotMode>>),
    Count(u64, Option<Box<BotMode>>),
}

/// What one finished rollout is worth to `player`.
pub open spec fn reward_spec<P: Player>(result: GameResult<P>, player: P) -> int {
    match result {
        GameResult::Won(p) => if p.uuid() == player.uuid() {
            1
        } else {
            -2
        },
        GameResult::Draw => -1,
        GameResult::Incomplete => 0,
    }
}

/// The reward of a rollout that ended in `result`: one for a win of
/// `player`, minus two for a win of another player, minus one for a draw,
/// nothing while incomplete.
pub fn reward<P: Player>(result: &GameResult<P>, player: &P) -> (r: i128)
    ensures
        r == reward_spec(*result, *player),
{
    match result {
        GameResult::Won(p) => if same_player(p, player) {
            1
        } else {
            -2
        },
        GameResult::Draw => -1,
        GameResult::Incomplete => 0,
    }
}

/// The first index of a largest score.
pub fn best_index(scores: &Vec<i128>) -> (r: usize)
    requires
        scores@.len() > 0,
    ensures
        r < scores@.len(),
        forall|j: int| 0 <= j < scores@.len() ==> scores@[j] <= scores@[r as int],
        forall|j: int| 0 <= j < r ==> scores@[j] < scores@[r as int],
{
    let mut best: usize = 0;
    let mut j: usize = 1;
    while j < scores.len()
        invariant
            1 <= j <= scores@.len(),
            best < j,
            forall|k: int| 0 <= k < j ==> scores@[k] <= scores@[best as int],
            forall|k: int| 0 <= k < best ==> scores@[k] < scores@[best as int],
        decreases scores.len() - j,
    {
        if scores[j] > scores[best] {
            best = j;
        }
        j += 1;
    }
    best
}

/// Plays `sim` to its end from the reply on: each reply is searched with
/// `nested` when given, and drawn uniformly from the legal moves otherwise.
/// Returns how the rollout ended.
fn play_out<T: GenericGame<P>, P: Player>(
    sim: &mut T,
    first: GameResult<P>,
    player: P,
    rng: &mut StdRng,
    nested: &Option<Box<BotMode>>,
) -> (r: GameResult<P>)
    requires
        old(sim).wf(),
    ensures
        final(sim).wf(),
        !(first is Incomplete) ==> r == first,
    decreases nested, 0nat,
{
    let mut gres = first;
    if matches!(gres, GameResult::Incomplete) {
        loop
            invariant
                sim.wf(),
            decreases sim.progress(),
        {
            let rmove = match nested {
                Some(b) => {
                    proof {
                        assert(decreases_to!(*nested => **b));
                    }
                    best_move(sim.duplicate(), player, rng, b)
                },
                None => {
                    let moves = sim.get_valid_moves();
                    choose_move(&moves, rng)
                },
            };
            match rmove {
                Some(rm) => {
                    proof {
                        sim.lemma_moves();
                    }
                    gres = sim.mov(rm).result;
                    if !matches!(gres, GameResult::Incomplete) {
                        break;
                    }
                },
                None => {
                    break;
                },
            }
        }
    }
    gres
}

/// The total reward for `player` of rollouts that start with the legal move
/// `m`, and how many were run: with a count budget (`timed` false) exactly
/// `budget` rollouts, and at least one; with a time budget, rollouts until
/// `budget` milliseconds have passed. Each rollout is worth one for a win
/// of `player`, minus two for a win of another player, minus one for a draw
/// and nothing otherwise, so the total lies between minus two and one per
/// rollout.
pub fn score_move<T: GenericGame<P>, P: Player>(
    game: &T,
    m: T::Move,
    player: P,
    rng: &mut StdRng,
    timed: bool,
    budget: u64,
    nested: &Option<Box<BotMode>>,
) -> (r: (i128, u64))
    requires
        game.wf(),
        game.valid(m),
    ensures
        r.1 >= 1,
        -2 * r.1 <= r.0 <= r.1,
        !timed ==> r.1 == (if budget == 0 {
            1
        } else {
            budget
        }),
    decreases nested, 1nat,
{
    let mut score: i128 = 0;
    let start = Instant::now();
    let mut count: u64 = 0;
    loop
        invariant_except_break
            count < u64::MAX,
            !timed ==> count < budget || count == 0,
        invariant
            game.wf(),
            game.valid(m),
            -2 * count <= score <= count,
        ensures
            count >= 1,
            !timed ==> count == (if budget == 0 {
                1
            } else {
                budget
            }),
        decreases u64::MAX - count,
    {
        let mut sim = game.duplicate();
        let first = sim.mov(m).result;
        let gres = play_out(&mut sim, first, player, rng, nested);
        score = score + reward(&gres, &player);
        count = count + 1;
        // the rollout count bounds every budget, so that a time budget too
        // ends after finitely many rollouts
        if count == u64::MAX {
            break;
        }
        if timed {
            if start.elapsed().as_millis() >= budget as u128 {
                break;
            }
        } else if count >= budget {
            break;
        }
    }
    (score, count)
}

/// Scores every legal move of `game` by randomized rollouts within the
/// budget `dat`, and returns the first move with the largest total reward
/// for `player`; `None` when no move is legal.
pub fn best_move<T: GenericGame<P>, P: Player>(
    game: T,
    player: P,
    rng: &mut StdRng,
    dat: &BotMode,
) -> (r: Option<T::Move>)
    requires
        game.wf(),
    ensures
        r is None <==> game.moves().len() == 0,
        r is Some ==> game.moves().contains(r->Some_0),
    decreases dat, 1nat,
{
    let vmoves = game.get_valid_moves();
    if vmoves.len() == 0 {
        return None;
    }
    let rmc = vmoves.len() as u64;
    let (timed, budget, nested) = match dat {
        BotMode::Time(n, b) => (true, *n / rmc, b),
        BotMode::Count(n, b) => (false, *n, b),
    };
    proof {
        assert(decreases_to!(*dat => *nested));
        game.lemma_moves();
    }
    let mut scores: Vec<i128> = Vec::new();
    let mut i: usize = 0;
    while i < vmoves.len()
        invariant
            i <= vmoves@.len(),
            scores@.len() == i,
            vmoves@ == game.moves(),
            game.wf(),
            forall|k: int| 0 <= k < vmoves@.len() ==> game.valid(#[trigger] vmoves@[k]),
            decreases_to!(*dat => *nested),
        decreases vmoves.len() - i,
    {
        let m = vmoves[i];
        let (score, _) = score_move(&game, m, player, rng, timed, budget, nested);
        scores.push(score);
        i += 1;
    }
    let best = best_index(&scores);
    Some(vmoves[best])
}

/// With exactly one legal move, that move is the one returned, whatever
/// the budget.
pub proof fn lemma_single_move<T: GenericGame<P>, P: Player>(game: T, r: Option<T::Move>)
    requires
        game.moves().len() == 1,
        r is None <==> game.moves().len() == 0,
        r is Some ==> game.moves().contains(r->Some_0),
    ensures
        r == Some(game.moves()[0]),
{
}

} // verus!
