//! The random generator of a session and the draws the game makes from it.
//!
//! The generator is `rand::StdRng`. Nothing is known about a draw beyond the
//! range it falls in: each function here states what holds of every outcome.

use rand::Rng;
use rand::StdRng;
use vstd::prelude::*;

verus! {

/// `rand::StdRng`, the generator itself. Nothing is said of its state: it
/// is only handed on to the draws below.
#[verifier::external_type_specification]
#[verifier::external_body]
pub struct ExStdRng(rand::StdRng);

/// `Rng::shuffle`: reorders `values` in place. The result is some
/// permutation of the input; which one is left open.
#[verifier::external_body]
pub(crate) fn shuffle_all<T>(rng: &mut StdRng, values: &mut Vec<T>)
    ensures
        final(values)@.to_multiset() == old(values)@.to_multiset(),
{
    rng.shuffle(values.as_mut_slice());
}

/// `Rng::gen_range`: a number in `[low, high)`. The outside function panics
/// on an empty range, which the precondition excludes.
#[verifier::external_body]
pub(crate) fn draw_between(rng: &mut StdRng, low: usize, high: usize) -> (drawn: usize)
    requires
        low < high,
    ensures
        low <= drawn < high,
{
    rng.gen_range(low, high)
}

/// `Rng::choose`: one element of `values`, or `None` exactly when there is
/// nothing to choose from.
#[verifier::external_body]
pub(crate) fn choose_one<'a, T>(rng: &mut StdRng, values: &'a Vec<T>) -> (chosen: Option<&'a T>)
    ensures
        chosen is None <==> values@.len() == 0,
        chosen matches Some(item) ==> values@.contains(*item),
{
    rng.choose(values.as_slice())
}

/// What a draw among texts yields: the text drawn, or the empty text where
/// there was nothing to draw from.
pub fn text_or_blank(chosen: Option<&String>) -> (text: String)
    ensures
        text@ == match chosen {
            Some(line) => line@,
            None => Seq::<char>::empty(),
        },
{
    match chosen {
        Some(line) => line.clone(),
        None => String::new(),
    }
}

/// Draws one of `candidates` at random; the empty text if there are none.
pub fn pick_text(rng: &mut StdRng, candidates: &Vec<String>) -> (text: String)
    ensures
        candidates@.len() == 0 ==> text@ == Seq::<char>::empty(),
        candidates@.len() > 0 ==> exists|i: int|
            0 <= i < candidates@.len() && text@ == #[trigger] candidates@[i]@,
{
    let chosen = choose_one(rng, candidates);
    text_or_blank(chosen)
}

} // verus!
