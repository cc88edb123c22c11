//! The mover that plays at random: it picks one of the columns that the match
//! offers, each with the same chance.

use rand::Rng;
use vstd::prelude::*;
use crate::connect4::{Action, Match, COLS};
use crate::model::MatchView;

verus! {

/// Whether `columns` lists the columns that `mat` offers to the player to
/// move, each once and from the lowest to the highest.
pub open spec fn lists_valid_columns(mat: MatchView, columns: Seq<usize>) -> bool {
    &&& forall|i: int| 0 <= i < columns.len() ==> mat.valid_action(#[trigger] columns[i] as int)
    &&& forall|i: int, j: int| 0 <= i < j < columns.len() ==> columns[i] < columns[j]
    &&& forall|c: usize| mat.valid_action(c as int) ==> columns.contains(c)
}

/// The generator of random numbers that `rand` keeps for each thread. Nothing
/// is known of what it holds.
#[verifier::external_type_specification]
#[verifier::external_body]
pub struct ExThreadRng(rand::rngs::ThreadRng);

/// `rand::thread_rng` hands out the generator of the running thread. Nothing
/// is claimed of it.
pub assume_specification[ rand::thread_rng ]() -> (rng: rand::rngs::ThreadRng);

/// A number below `bound`, drawn from `rng` by `rand::Rng::gen_range` on the
/// half-open range from 0 to `bound`.
///
/// Nothing is claimed of the draw but that it lies in the range. An empty
/// range, on which `gen_range` panics, is left out.
#[verifier::external_body]
fn random_below(rng: &mut rand::rngs::ThreadRng, bound: usize) -> (draw: usize)
    requires
        bound > 0,
    ensures
        draw < bound,
{
    rng.gen_range(0..bound)
}

/// The columns that `mat` offers to the player to move, from the lowest to
/// the highest.
pub fn valid_columns(mat: &Match) -> (columns: Vec<usize>)
    ensures
        lists_valid_columns(mat@, columns@),
        columns@.len() <= COLS,
{
    let mut columns: Vec<usize> = Vec::new();
    for col in 0..COLS
        invariant
            columns@.len() <= col,
            forall|i: int| 0 <= i < columns@.len() ==> mat@.valid_action(#[trigger] columns@[i] as int),
            forall|i: int| 0 <= i < columns@.len() ==> (#[trigger] columns@[i]) < col,
            forall|i: int, j: int| 0 <= i < j < columns@.len() ==> columns@[i] < columns@[j],
            forall|c: usize| c < col && mat@.valid_action(c as int) ==> columns@.contains(c),
    {
        let ghost before = columns@;
        if mat.valid_action(&Action { column: col }) {
            columns.push(col);
        }
        proof {
            assert forall|c: usize| c < col + 1 && mat@.valid_action(c as int) implies columns@.contains(
                c,
            ) by {
                if c < col {
                    let i = choose|i: int| 0 <= i < before.len() && before[i] == c;
                    assert(columns@[i] == c);
                } else {
                    assert(columns@[columns@.len() - 1] == c);
                }
            }
        }
    }
    columns
}

/// Picks at random one of the columns that `mat` offers to the player to
/// move.
///
/// The match must offer a column: on a full grid there is nothing to pick.
pub fn agent(mat: &Match) -> (action: Action)
    requires
        mat@.has_valid_action(),
    ensures
        mat@.valid_action(action.column as int),
{
    let columns = valid_columns(mat);
    proof {
        let c = choose|c: int| mat@.valid_action(c);
        assert(mat@.valid_action(c as usize as int));
        assert(columns@.contains(c as usize));
    }
    let mut rng = rand::thread_rng();
    let draw = random_below(&mut rng, columns.len());
    Action { column: columns[draw] }
}

} // verus!
