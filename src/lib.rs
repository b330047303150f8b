use vstd::prelude::*;

pub mod dummy;
pub mod evaluator;
pub mod generic;
pub mod pl_xo;
pub mod quantum_tic_tac_toe;
pub mod super_tic_tac_toe;
pub mod terminal_render;

pub use dummy::{DummyGame, SuperDummyGame};
pub use evaluator::{best_index, best_move, reward, score_move, BotMode};
pub use generic::{
    jump_view, jump_wf, same_game, same_player, same_state, wrap, GameResult, GenericGame, MoveData,
    Player, Position,
    SubgameState,
};
pub use pl_xo::pl_XO;
pub use quantum_tic_tac_toe::{
    judge_marks, Entanglement, Measurement, QuantumMove, QuantumTicTacToe, QuantumTicTacToeMoveEnt,
    QuantumTicTacToeMoveMeas, Subscripted,
};
pub use super_tic_tac_toe::{SubgameGen, SuperTicTacToe, SuperTicTacToeMove};
pub use terminal_render::{ColorEnum, Grapheme, Rect, TerminalCanvas};

verus! {

} // verus!
