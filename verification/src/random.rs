//! The source of the numbers that the generator draws.

use vstd::prelude::*;

verus! {

/// Draws a `usize` from the thread-local generator of the `rand` crate, by a
/// call of `rand::random::<usize>()`.
///
/// Nothing is claimed of the number drawn: any `usize` may come back, and
/// two calls may differ. The generator takes its seed from the operating
/// system, on first use in a thread and again each time it reseeds; `rand`
/// panics if the operating system fails to give one.
#[verifier::external_body]
fn random_usize() -> usize {
    rand::random::<usize>()
}

/// A source of numbers: first the numbers of a list given in advance, in
/// their order, and once these are used up, random numbers.
pub struct Draws {
    given: Vec<usize>,
}

impl View for Draws {
    type V = Seq<usize>;

    /// The numbers given in advance that have not been drawn yet.
    closed spec fn view(&self) -> Seq<usize> {
        self.given@
    }
}

impl Draws {
    /// The numbers given in advance fit in memory.
    pub proof fn lemma_given_bounded(&self)
        ensures
            self@.len() <= usize::MAX,
    {
        assert(self.given.len() == self.given@.len());
    }

    /// A source of random numbers only.
    pub fn random() -> (draws: Draws)
        ensures
            draws@ == Seq::<usize>::empty(),
    {
        Draws { given: Vec::new() }
    }

    /// A source that gives the numbers of `list` first.
    pub fn seeded(list: Vec<usize>) -> (draws: Draws)
        ensures
            draws@ == list@,
    {
        Draws { given: list }
    }

    /// The next number: the first of the given numbers that is left, or a
    /// random number when none is left.
    pub fn next(&mut self) -> (n: usize)
        ensures
            old(self)@.len() > 0 ==> n == old(self)@[0] && final(self)@ == old(self)@.skip(1),
            old(self)@.len() == 0 ==> final(self)@.len() == 0,
    {
        if self.given.len() > 0 {
            let n = self.given.remove(0);
            assert(self.given@ =~= old(self).given@.skip(1));
            n
        } else {
            random_usize()
        }
    }
}

} // verus!
