use vstd::prelude::*;
use vstd::string::StringExecFns;

use crate::generic::Player;

verus! {

/// The marks of the shipped game: two players, and a third one that the
/// turn cycle passes through.
#[allow(non_camel_case_types)]
#[derive(Clone, Copy, Debug, PartialEq, Eq, Structural)]
pub enum pl_XO {
    X,
    O,
    C,
}

impl Player for pl_XO {
    open spec fn uuid(&self) -> Seq<char> {
        match self {
            pl_XO::X => "two_players_X"@,
            pl_XO::O => "two_players_O"@,
            pl_XO::C => "two_players_C"@,
        }
    }

    open spec fn next_spec(&self) -> pl_XO {
        match self {
            pl_XO::X => pl_XO::O,
            pl_XO::O => pl_XO::C,
            pl_XO::C => pl_XO::X,
        }
    }

    fn next_player(&self) -> (r: pl_XO) {
        match self {
            pl_XO::X => pl_XO::O,
            pl_XO::O => pl_XO::C,
            pl_XO::C => pl_XO::X,
        }
    }

    fn get_uuid(&self) -> (r: String) {
        match self {
            pl_XO::X => String::from_str("two_players_X"),
            pl_XO::O => String::from_str("two_players_O"),
            pl_XO::C => String::from_str("two_players_C"),
        }
    }
}

} // verus!
