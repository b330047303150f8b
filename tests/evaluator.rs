use libguttt::{
    best_index, best_move, pl_XO, reward, BotMode, DummyGame, GameResult, GenericGame, Position,
    QuantumMove, QuantumTicTacToe, QuantumTicTacToeMoveEnt, SuperTicTacToe,
};
use rand::rngs::StdRng;
use rand::SeedableRng;

#[test]
fn single_move_is_chosen() {
    let mut rng = StdRng::seed_from_u64(7);
    let game = DummyGame::new(pl_XO::X);
    let m = best_move(game, pl_XO::X, &mut rng, &BotMode::Count(1, None));
    assert_eq!(m, Some(true));
    let game = DummyGame::new(pl_XO::O);
    let m = best_move(game, pl_XO::X, &mut rng, &BotMode::Time(5, None));
    assert_eq!(m, Some(true));
}

#[test]
fn no_move_gives_none() {
    let mut rng = StdRng::seed_from_u64(1);
    type Plain = SuperTicTacToe<DummyGame<pl_XO>, pl_XO>;
    let mut game = Plain::create(pl_XO::X, Position::default());
    for c in [0u8, 3, 6, 1, 4, 7, 2] {
        let m = libguttt::SuperTicTacToeMove { pos: Position::from_cid(c), submove: true };
        game.mov(m);
    }
    assert_eq!(game.get_valid_moves().len(), 0);
    assert!(best_move(game, pl_XO::X, &mut rng, &BotMode::Count(3, None)).is_none());
}

#[test]
fn chosen_move_is_legal() {
    let mut rng = StdRng::seed_from_u64(42);
    type Plain = SuperTicTacToe<DummyGame<pl_XO>, pl_XO>;
    let game = Plain::create(pl_XO::X, Position::default());
    let nested = BotMode::Count(2, Some(Box::new(BotMode::Count(1, None))));
    let m = best_move(game.duplicate(), pl_XO::X, &mut rng, &nested).expect("a move");
    assert!(game.is_valid_move(&m));
}

#[test]
fn quantum_search_picks_legal_move() {
    let mut rng = StdRng::seed_from_u64(3);
    let mut game = QuantumTicTacToe::new(pl_XO::X);
    game.mov(QuantumMove::Entangle(QuantumTicTacToeMoveEnt {
        p1: Position::from_cid(0),
        p2: Position::from_cid(1),
    }));
    let m = best_move(game.duplicate(), pl_XO::O, &mut rng, &BotMode::Count(2, None)).expect("a move");
    assert!(game.is_valid_move(&m));
}

#[test]
fn rewards() {
    assert_eq!(reward(&GameResult::Won(pl_XO::X), &pl_XO::X), 1);
    assert_eq!(reward(&GameResult::Won(pl_XO::O), &pl_XO::X), -2);
    assert_eq!(reward(&GameResult::<pl_XO>::Draw, &pl_XO::X), -1);
    assert_eq!(reward(&GameResult::<pl_XO>::Incomplete, &pl_XO::X), 0);
}

#[test]
fn first_largest_score_wins() {
    assert_eq!(best_index(&vec![3, -1, 3, 2]), 0);
    assert_eq!(best_index(&vec![-5, -2, -2]), 1);
    assert_eq!(best_index(&vec![0]), 0);
}

#[test]
fn count_budget_runs_that_many_rollouts() {
    let mut rng = StdRng::seed_from_u64(5);
    let game = DummyGame::new(pl_XO::X);
    let none: Option<Box<BotMode>> = None;
    assert_eq!(libguttt::score_move(&game, true, pl_XO::X, &mut rng, false, 5, &none), (5, 5));
    assert_eq!(libguttt::score_move(&game, true, pl_XO::O, &mut rng, false, 3, &none), (-6, 3));
    assert_eq!(libguttt::score_move(&game, true, pl_XO::X, &mut rng, false, 0, &none), (1, 1));
}
