//! What the proofs take on trust: the random choice, and what it is to
//! append a character to a `String`.

use rand::rngs::StdRng;
use rand::seq::IteratorRandom;
use vstd::prelude::*;

verus! {

/// The generator that drives a collapse, `rand::rngs::StdRng`: seedable, so
/// that a run can be repeated. The proofs see nothing of its state.
#[verifier::external_type_specification]
#[verifier::external_body]
pub struct ExStdRng(StdRng);

/// Picks a position below `len` at random, by
/// `rand::seq::IteratorRandom::choose` on the range `0..len`.
///
/// Trusted, not proved: `choose` returns `None` if and only if the range is
/// empty, and else hands back one of the numbers of the range. Which one
/// depends on the generator, and nothing is claimed about that.
#[verifier::external_body]
pub(crate) fn choose_index(len: usize, rng: &mut StdRng) -> (picked: Option<usize>)
    ensures
        picked is None <==> len == 0,
        picked matches Some(i) ==> i < len,
{
    (0..len).choose(rng)
}

/// Specifies `String::push` of the standard library.
///
/// Trusted, not proved: the character is appended to the end of the string,
/// and nothing else of the string changes.
pub assume_specification[ String::push ](text: &mut String, c: char)
    ensures
        final(text)@ == old(text)@.push(c),
;

} // verus!
