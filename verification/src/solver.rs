//! The strategy selector: maps a mode token from the command line to one of
//! the solving strategies.  No token, or an unrecognized one, selects
//! manual play.

use vstd::prelude::*;

verus! {

/// The solving strategies a game can be driven by.
#[derive(Debug, Clone, Copy, PartialEq, Eq, Structural)]
pub enum SolverKind {
    Manual,
    SingleDigit,
    MultiDigit,
}

/// Selects a strategy from the command-line arguments: the word after the
/// program name picks the single-symbol probe or the color-census
/// strategy; anything else falls back to manual play.
pub fn parse_args(args: Vec<String>) -> (r: SolverKind)
    ensures
        args@.len() < 2 ==> r == SolverKind::Manual,
        args@.len() >= 2 && args@[1]@ == "single"@ ==> r == SolverKind::SingleDigit,
        args@.len() >= 2 && args@[1]@ == "multi"@ ==> r == SolverKind::MultiDigit,
        args@.len() >= 2 && args@[1]@ != "single"@ && args@[1]@ != "multi"@ ==> r
            == SolverKind::Manual,
{
    let single_token = "single".to_owned();
    let multi_token = "multi".to_owned();
    if 2 > args.len() {
        SolverKind::Manual
    } else {
        proof {
            reveal_strlit("single");
            reveal_strlit("multi");
            assert("single"@.len() == 6);
            assert("multi"@.len() == 5);
        }
        if args[1] == single_token {
            SolverKind::SingleDigit
        } else if args[1] == multi_token {
            SolverKind::MultiDigit
        } else {
            SolverKind::Manual
        }
    }
}

} // verus!
