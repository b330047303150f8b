use libguttt::{
    judge_marks, pl_XO, GameResult, GenericGame, Measurement, Position, QuantumMove,
    QuantumTicTacToe, QuantumTicTacToeMoveEnt, QuantumTicTacToeMoveMeas, Subscripted,
};

fn ent(a: u8, b: u8) -> QuantumMove {
    QuantumMove::Entangle(QuantumTicTacToeMoveEnt {
        p1: Position::from_cid(a),
        p2: Position::from_cid(b),
    })
}

fn meas(first: bool) -> QuantumMove {
    QuantumMove::Measure(QuantumTicTacToeMoveMeas { first })
}

fn marked(game: &QuantumTicTacToe<pl_XO>) -> Vec<u8> {
    (0..9u8).filter(|c| game.get_classic_mark(Position::from_cid(*c)).is_some()).collect()
}

/// Entangles 0-1, 1-2 and 2-0, all for X.
fn triangle() -> QuantumTicTacToe<pl_XO> {
    let mut game = QuantumTicTacToe::new(pl_XO::X);
    for (a, b) in [(0u8, 1u8), (1, 2)] {
        game.set_player(pl_XO::X);
        let r = game.mov(ent(a, b));
        assert!(matches!(r.result, GameResult::Incomplete));
        assert!(r.jump.is_none());
        assert!(game.get_valid_moves().iter().all(|m| matches!(m, QuantumMove::Entangle(_))));
    }
    game.set_player(pl_XO::X);
    game.mov(ent(2, 0));
    game
}

#[test]
fn fresh_quantum_game_offers_all_pairs() {
    let game = QuantumTicTacToe::new(pl_XO::X);
    assert_eq!(game.get_valid_moves().len(), 36);
    assert_eq!(game.get_ents().len(), 0);
    assert!(game.is_valid_move(&ent(3, 7)));
    assert!(game.is_valid_move(&ent(7, 3)));
    assert!(!game.is_valid_move(&ent(4, 4)));
    assert!(!game.is_valid_move(&meas(true)));
}

#[test]
fn entangled_pair_cannot_repeat() {
    let mut game = QuantumTicTacToe::new(pl_XO::X);
    game.mov(ent(0, 1));
    assert!(!game.is_valid_move(&ent(1, 0)));
    assert_eq!(game.get_valid_moves().len(), 35);
    assert_eq!(game.get_player(), pl_XO::O);
    assert_eq!(game.get_ents_in_cell(Position::from_cid(1)).len(), 1);
    assert_eq!(game.get_ents_in_cell(Position::from_cid(2)).len(), 0);
    let e = game.get_ents()[0];
    assert_eq!(e.get_player(), pl_XO::X);
    assert_eq!(e.get_subscript(), 1);
}

#[test]
fn subscript_grows_when_first_mover_moves_again() {
    let mut game = QuantumTicTacToe::new(pl_XO::X);
    game.mov(ent(0, 1));
    game.mov(ent(2, 3));
    game.mov(ent(4, 5));
    game.mov(ent(6, 7));
    let subs: Vec<u8> = game.get_ents().iter().map(|e| e.subscript).collect();
    assert_eq!(subs, vec![1, 1, 1, 2]);
}

#[test]
fn collapse_fires_on_the_closing_move() {
    let game = triangle();
    let moves = game.get_valid_moves();
    assert_eq!(moves.len(), 2);
    assert!(moves.iter().all(|m| matches!(m, QuantumMove::Measure(_))));
    assert!(game.is_valid_move(&meas(false)));
    assert!(!game.is_valid_move(&ent(4, 5)));
    assert_eq!(marked(&game), Vec::<u8>::new());
}

#[test]
fn collapse_resolves_same_cells_from_either_end() {
    let mut a = triangle();
    let mut b = triangle();
    let ra = a.mov(meas(true));
    let rb = b.mov(meas(false));
    assert_eq!(marked(&a), vec![0, 1, 2]);
    assert_eq!(marked(&b), vec![0, 1, 2]);
    let mut ja: Vec<u8> = ra.jump.expect("resolved cells").iter().map(|p| p.get_cid()).collect();
    let mut jb: Vec<u8> = rb.jump.expect("resolved cells").iter().map(|p| p.get_cid()).collect();
    ja.sort();
    ja.dedup();
    jb.sort();
    jb.dedup();
    assert_eq!(ja, vec![0, 1, 2]);
    assert_eq!(jb, vec![0, 1, 2]);
    assert_eq!(a.get_ents().len(), 0);
    assert_eq!(b.get_ents().len(), 0);
    // all three marks are X's: the top row is won
    assert!(matches!(ra.result, GameResult::Won(pl_XO::X)));
    assert!(matches!(rb.result, GameResult::Won(pl_XO::X)));
    assert!(!a.is_valid_move(&ent(0, 3)));
}

#[test]
fn open_chain_does_not_collapse() {
    let mut game = QuantumTicTacToe::new(pl_XO::X);
    game.mov(ent(0, 1));
    game.mov(ent(1, 2));
    game.mov(ent(2, 3));
    assert!(game.get_valid_moves().iter().all(|m| matches!(m, QuantumMove::Entangle(_))));
    assert_eq!(game.get_ents().len(), 3);
}

fn mark(p: pl_XO, s: u8) -> Option<Measurement<pl_XO>> {
    Some(Measurement { player: p, subscript: s })
}

#[test]
fn equal_order_lines_of_two_players_draw() {
    let mut marks = vec![None; 9];
    for c in [0usize, 1, 2] {
        marks[c] = mark(pl_XO::X, 1);
    }
    for c in [6usize, 7, 8] {
        marks[c] = mark(pl_XO::O, 1);
    }
    marks[2] = mark(pl_XO::X, 4);
    marks[8] = mark(pl_XO::O, 4);
    assert!(matches!(judge_marks(&marks, false), GameResult::Draw));
}

#[test]
fn earlier_line_wins() {
    let mut marks = vec![None; 9];
    for c in [0usize, 1, 2] {
        marks[c] = mark(pl_XO::X, 5);
    }
    for c in [6usize, 7, 8] {
        marks[c] = mark(pl_XO::O, 2);
    }
    marks[8] = mark(pl_XO::O, 3);
    assert!(matches!(judge_marks(&marks, false), GameResult::Won(pl_XO::O)));
}

#[test]
fn no_line_is_incomplete_or_drawn() {
    let mut marks = vec![None; 9];
    marks[0] = mark(pl_XO::X, 1);
    marks[1] = mark(pl_XO::O, 1);
    marks[2] = mark(pl_XO::X, 1);
    assert!(matches!(judge_marks(&marks, false), GameResult::Incomplete));
    assert!(matches!(judge_marks(&marks, true), GameResult::Draw));
}

#[test]
fn same_player_lines_win_for_that_player() {
    let mut marks = vec![None; 9];
    for c in [0usize, 3, 6, 1, 2] {
        marks[c] = mark(pl_XO::C, 2);
    }
    assert!(matches!(judge_marks(&marks, false), GameResult::Won(pl_XO::C)));
}

#[test]
fn measurements_compare_by_player() {
    let a = Measurement { player: pl_XO::X, subscript: 1 };
    let b = Measurement { player: pl_XO::X, subscript: 7 };
    let c = Measurement { player: pl_XO::O, subscript: 1 };
    assert!(a == b);
    assert!(a != c);
}

#[test]
fn collapse_keeps_other_entanglements_in_order() {
    let mut game = QuantumTicTacToe::new(pl_XO::X);
    game.set_player(pl_XO::X);
    game.mov(ent(3, 4));
    game.set_player(pl_XO::X);
    game.mov(ent(0, 1));
    game.set_player(pl_XO::X);
    game.mov(ent(5, 6));
    game.set_player(pl_XO::X);
    game.mov(ent(1, 2));
    game.set_player(pl_XO::X);
    game.mov(ent(2, 0));
    let r = game.mov(meas(true));
    assert!(r.jump.is_some());
    let left: Vec<(u8, u8)> =
        game.get_ents().iter().map(|e| (e.p1.get_cid(), e.p2.get_cid())).collect();
    assert_eq!(left, vec![(3, 4), (5, 6)]);
    assert_eq!(marked(&game), vec![0, 1, 2]);
}

#[test]
fn collapse_marks_follow_the_chain_from_the_chosen_end() {
    let mut a = triangle();
    let mut b = triangle();
    a.mov(meas(true));
    b.mov(meas(false));
    let subs = |g: &QuantumTicTacToe<pl_XO>| -> Vec<u8> {
        (0..3u8).map(|c| g.get_classic_mark(Position::from_cid(c)).unwrap().subscript).collect()
    };
    // the entanglements 0-1, 1-2 and 2-0 carry subscripts 1, 2 and 3; the
    // pending one (2-0) marks the chosen end, and the others follow the chain
    assert_eq!(subs(&a), vec![1, 2, 3]);
    assert_eq!(subs(&b), vec![3, 1, 2]);
    let mut sa = subs(&a);
    let mut sb = subs(&b);
    sa.sort();
    sb.sort();
    assert_eq!(sa, sb);
}
