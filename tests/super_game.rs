use libguttt::{
    pl_XO, DummyGame, GameResult, GenericGame, Position, QuantumMove, QuantumTicTacToe,
    QuantumTicTacToeMoveEnt, SubgameState, SuperDummyGame, SuperTicTacToe, SuperTicTacToeMove,
};

type Plain = SuperTicTacToe<DummyGame<pl_XO>, pl_XO>;

fn plain() -> Plain {
    Plain::create(pl_XO::X, Position::default())
}

fn at(cid: u8) -> SuperTicTacToeMove<bool> {
    SuperTicTacToeMove { pos: Position::from_cid(cid), submove: true }
}

fn forced(game: &Plain) -> Vec<u8> {
    (0..9u8).filter(|c| game.is_good_cell(Position::from_cid(*c))).collect()
}

#[test]
fn end_to_end_plain_game() {
    let mut game = plain();
    assert_eq!(game.get_valid_moves().len(), 9);
    let r1 = game.mov(at(4));
    assert!(matches!(r1.result, GameResult::Incomplete));
    let r2 = game.mov(at(0));
    assert!(matches!(r2.result, GameResult::Incomplete));
    game.set_player(pl_XO::X);
    let r3 = game.mov(at(8));
    assert!(matches!(r3.result, GameResult::Incomplete));
    assert_eq!(game.get_valid_moves().len(), 6);
    assert!(matches!(game.get_cell_ref(Position::from_cid(4)), SubgameState::Won(pl_XO::X, _)));
    assert!(matches!(game.get_cell_ref(Position::from_cid(0)), SubgameState::Won(pl_XO::O, _)));
    assert!(matches!(game.get_cell_ref(Position::from_cid(8)), SubgameState::Won(pl_XO::X, _)));
}

#[test]
fn turn_order_follows_player_cycle() {
    let mut game = plain();
    assert_eq!(game.get_player(), pl_XO::X);
    let r = game.mov(at(2));
    assert_eq!(r.next_player, pl_XO::O);
    assert_eq!(game.get_player(), pl_XO::O);
    game.mov(at(3));
    assert_eq!(game.get_player(), pl_XO::C);
    game.mov(at(5));
    assert_eq!(game.get_player(), pl_XO::X);
}

#[test]
fn won_cell_reports_itself_and_frees_the_board() {
    let mut game = plain();
    let r = game.mov(at(4));
    let jump = r.jump.expect("a won cell is reported");
    assert_eq!(jump.len(), 1);
    assert_eq!(jump[0].get_cid(), 4);
    assert_eq!(forced(&game), vec![0, 1, 2, 3, 5, 6, 7, 8]);
    assert!(!game.is_valid_move(&at(4)));
    assert!(game.is_valid_move(&at(0)));
}

#[test]
fn row_of_one_player_wins() {
    let mut game = plain();
    for c in [0u8, 3, 6, 1, 4, 7] {
        let r = game.mov(at(c));
        assert!(matches!(r.result, GameResult::Incomplete));
    }
    let r = game.mov(at(2));
    assert!(matches!(r.result, GameResult::Won(pl_XO::X)));
    assert_eq!(game.get_valid_moves().len(), 0);
    assert_eq!(forced(&game), Vec::<u8>::new());
}

#[test]
fn diagonal_of_one_player_wins() {
    let mut game = plain();
    for c in [0u8, 1, 2, 4, 3, 5] {
        let r = game.mov(at(c));
        assert!(matches!(r.result, GameResult::Incomplete));
    }
    let r = game.mov(at(8));
    assert!(matches!(r.result, GameResult::Won(pl_XO::X)));
}

#[test]
fn full_grid_without_line_is_drawn() {
    let mut game = plain();
    let order = [0u8, 1, 2, 5, 6, 3, 7, 8, 4];
    for (k, c) in order.iter().enumerate() {
        let r = game.mov(at(*c));
        if k + 1 < order.len() {
            assert!(matches!(r.result, GameResult::Incomplete));
        } else {
            assert!(matches!(r.result, GameResult::Draw));
        }
    }
    assert_eq!(game.get_valid_moves().len(), 0);
}

#[test]
fn move_outside_forced_set_is_invalid() {
    type Nested = SuperTicTacToe<SuperTicTacToe<DummyGame<pl_XO>, pl_XO>, pl_XO>;
    let mut game = Nested::create(pl_XO::X, Position::default());
    assert_eq!(game.get_valid_moves().len(), 81);
    let m = SuperTicTacToeMove {
        pos: Position::from_cid(0),
        submove: SuperTicTacToeMove { pos: Position::from_cid(5), submove: true },
    };
    let r = game.mov(m);
    assert!(matches!(r.result, GameResult::Incomplete));
    // the inner move won inner cell 5, which the inner game reports: the
    // next move is forced into outer cell 5
    assert!(r.jump.is_none());
    assert!(game.is_good_cell(Position::from_cid(5)));
    assert!(!game.is_good_cell(Position::from_cid(0)));
    assert_eq!(game.get_valid_moves().len(), 9);
    let bad = SuperTicTacToeMove {
        pos: Position::from_cid(1),
        submove: SuperTicTacToeMove { pos: Position::from_cid(0), submove: true },
    };
    assert!(!game.is_valid_move(&bad));
}

#[test]
fn cell_still_in_play_is_forced_next() {
    type Q = SuperTicTacToe<QuantumTicTacToe<pl_XO>, pl_XO>;
    let mut game = Q::create(pl_XO::X, Position::default());
    let m = SuperTicTacToeMove {
        pos: Position::from_cid(3),
        submove: QuantumMove::Entangle(QuantumTicTacToeMoveEnt {
            p1: Position::from_cid(0),
            p2: Position::from_cid(1),
        }),
    };
    assert!(game.is_valid_move(&m));
    let r = game.mov(m);
    assert!(matches!(r.result, GameResult::Incomplete));
    assert!(matches!(game.get_cell_ref(Position::from_cid(3)), SubgameState::Playing(_)));
    for c in 0..9u8 {
        assert_eq!(game.is_good_cell(Position::from_cid(c)), c == 3);
    }
}

#[test]
fn super_dummy_keeps_outcome() {
    let mut game = SuperDummyGame::<DummyGame<pl_XO>, pl_XO>::new(DummyGame::new(pl_XO::O));
    assert_eq!(game.get_valid_moves().len(), 1);
    let r = game.mov(true);
    assert!(matches!(r.result, GameResult::Won(pl_XO::O)));
    assert!(matches!(game.get_game_ref(), SubgameState::Won(pl_XO::O, _)));
    assert_eq!(game.get_valid_moves().len(), 0);
    assert!(!game.is_valid_move(&true));
}

#[test]
fn dummy_game_always_wins_for_mover() {
    let mut game = DummyGame::new(pl_XO::C);
    let r = game.mov(true);
    assert!(matches!(r.result, GameResult::Won(pl_XO::C)));
    assert_eq!(r.next_player, pl_XO::X);
    assert_eq!(game.get_player(), pl_XO::X);
}
