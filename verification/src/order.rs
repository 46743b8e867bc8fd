//! The contract that every representation of a finite partial order meets.

use crate::relation::{acyclic, le, mentions, precedes};
use vstd::laws_eq::obeys_concrete_eq;
use vstd::prelude::*;

verus! {

/// A finite partial order over elements of type `T`, grown by declaring one
/// fact after another.
///
/// What an instance stands for is its set of declared facts, `facts()`; the
/// order itself is `relation::le` over them and is never stored. A
/// representation keeps its facts acyclic, so that the order is reflexive,
/// antisymmetric and transitive in every state that `empty` and `add` reach.
pub trait FinPartOrd<T>: Sized {
    /// Why a fact was turned down.
    type Error;

    /// What the representation asks of the element type, such as an `==`
    /// that tells exactly the identical elements apart from the others.
    spec fn elements_ok() -> bool;

    /// The invariant of the representation.
    spec fn wf(&self) -> bool;

    /// The facts declared so far, self-pairs left out.
    spec fn facts(&self) -> Set<(T, T)>;

    /// The storage can take one more fact.
    spec fn has_room(&self) -> bool;

    /// A well-formed instance holds acyclic facts.
    proof fn lemma_facts_acyclic(&self)
        requires
            self.wf(),
        ensures
            acyclic(self.facts()),
    ;

    /// The order without any fact: no two distinct elements are comparable.
    #[must_use]
    fn empty() -> (fpo: Self)
        requires
            Self::elements_ok(),
        ensures
            fpo.wf(),
            fpo.has_room(),
            fpo.facts() == Set::<(T, T)>::empty(),
    ;

    /// Declares that `lo` precedes `hi`.
    ///
    /// A self-pair changes nothing. Any other fact is taken up unless `hi`
    /// already precedes `lo`; then the fact would make two distinct elements
    /// precede each other, and it is refused.
    fn add(self, lo: T, hi: T) -> (res: Result<Self, Self::Error>)
        requires
            self.wf(),
            lo != hi ==> self.has_room(),
        ensures
            res is Err <==> lo != hi && precedes(self.facts(), hi, lo),
            res matches Ok(fpo) ==> {
                &&& fpo.wf()
                &&& lo == hi ==> fpo.facts() == self.facts()
                &&& lo != hi ==> fpo.facts() == self.facts().insert((lo, hi))
                &&& le(fpo.facts(), lo, hi)
            },
    ;

    /// Whether `lo` strictly precedes `hi`.
    ///
    /// For distinct elements the answer is exact. Asked of one element twice,
    /// a representation may say `true` if a fact names it. An element that
    /// no fact names precedes nothing and is preceded by nothing.
    fn lt(&self, lo: &T, hi: &T) -> (res: Result<bool, Self::Error>)
        requires
            self.wf(),
        ensures
            res is Ok,
            res matches Ok(b) ==> {
                &&& *lo != *hi ==> b == precedes(self.facts(), *lo, *hi)
                &&& b ==> mentions(self.facts(), *lo) && mentions(self.facts(), *hi)
            },
    ;

    /// Whether `lo` precedes or equals `hi`.
    fn le(&self, lo: &T, hi: &T) -> (res: Result<bool, Self::Error>) where T: PartialEq
        requires
            self.wf(),
            obeys_concrete_eq::<T>(),
        ensures
            res matches Ok(b) && b == le(self.facts(), *lo, *hi),
    {
        proof {
            reveal(obeys_concrete_eq);
        }
        if lo == hi {
            return Ok(true);
        }
        self.lt(lo, hi)
    }
}

} // verus!
