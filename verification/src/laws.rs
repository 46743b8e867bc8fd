//! The laws of a finite partial order, proved of every representation.
//!
//! A law speaks of calls. `call_ensures(f, args, result)` says that `result`
//! is something that `f` may return on `args`; a law takes the results of the
//! calls it speaks of as parameters and says what holds of them.

use crate::order::FinPartOrd;
use crate::relation::{lemma_fact_precedes, lemma_le_antisymmetric, lemma_le_transitive, mentions};
use vstd::laws_eq::obeys_concrete_eq;
use vstd::prelude::*;

verus! {

/// Reflexivity: every element is at or below itself, whether a fact names it
/// or not.
pub proof fn law_reflexive<T: PartialEq, P: FinPartOrd<T>>(
    fpo: P,
    x: T,
    answer: Result<bool, P::Error>,
)
    requires
        fpo.wf(),
        obeys_concrete_eq::<T>(),
        call_ensures(P::le, (&fpo, &x, &x), answer),
    ensures
        answer == Ok::<bool, P::Error>(true),
{
}

/// Insertion soundness: once `add(lo, hi)` has succeeded, `le(lo, hi)` says
/// `true`.
pub proof fn law_add_sound<T: PartialEq, P: FinPartOrd<T>>(
    before: P,
    lo: T,
    hi: T,
    after: P,
    answer: Result<bool, P::Error>,
)
    requires
        before.wf(),
        lo != hi ==> before.has_room(),
        obeys_concrete_eq::<T>(),
        call_ensures(P::add, (before, lo, hi), Ok(after)),
        call_ensures(P::le, (&after, &lo, &hi), answer),
    ensures
        answer == Ok::<bool, P::Error>(true),
{
}

/// Compatibility: `le` says `true` exactly of equal elements and of those of
/// which `lt` says `true`.
pub proof fn law_compatible<T: PartialEq, P: FinPartOrd<T>>(
    fpo: P,
    x: T,
    y: T,
    at_or_below: Result<bool, P::Error>,
    below: Result<bool, P::Error>,
)
    requires
        fpo.wf(),
        obeys_concrete_eq::<T>(),
        call_ensures(P::le, (&fpo, &x, &y), at_or_below),
        call_ensures(P::lt, (&fpo, &x, &y), below),
    ensures
        at_or_below matches Ok(a) && below matches Ok(b) && a == (x == y || b),
{
}

/// Antisymmetry: two elements that are each at or below the other are one
/// element.
pub proof fn law_antisymmetric<T: PartialEq, P: FinPartOrd<T>>(fpo: P, x: T, y: T)
    requires
        fpo.wf(),
        obeys_concrete_eq::<T>(),
        call_ensures(P::le, (&fpo, &x, &y), Ok::<bool, P::Error>(true)),
        call_ensures(P::le, (&fpo, &y, &x), Ok::<bool, P::Error>(true)),
    ensures
        x == y,
{
    fpo.lemma_facts_acyclic();
    lemma_le_antisymmetric(fpo.facts(), x, y);
}

/// Transitivity: with `x` at or below `y` and `y` at or below `z`, `x` is at
/// or below `z`.
pub proof fn law_transitive<T: PartialEq, P: FinPartOrd<T>>(
    fpo: P,
    x: T,
    y: T,
    z: T,
    answer: Result<bool, P::Error>,
)
    requires
        fpo.wf(),
        obeys_concrete_eq::<T>(),
        call_ensures(P::le, (&fpo, &x, &y), Ok::<bool, P::Error>(true)),
        call_ensures(P::le, (&fpo, &y, &z), Ok::<bool, P::Error>(true)),
        call_ensures(P::le, (&fpo, &x, &z), answer),
    ensures
        answer == Ok::<bool, P::Error>(true),
{
    lemma_le_transitive(fpo.facts(), x, y, z);
}

/// Rejection of the reverse fact: once `add(x, y)` has succeeded for distinct
/// `x` and `y`, `add(y, x)` fails.
pub proof fn law_reverse_refused<T, P: FinPartOrd<T>>(
    before: P,
    x: T,
    y: T,
    after: P,
    again: Result<P, P::Error>,
)
    requires
        before.wf(),
        before.has_room(),
        after.has_room(),
        x != y,
        call_ensures(P::add, (before, x, y), Ok(after)),
        call_ensures(P::add, (after, y, x), again),
    ensures
        again is Err,
{
    lemma_fact_precedes(after.facts(), x, y);
}

/// Neutrality of unknown elements: an element that no fact names neither
/// strictly precedes anything nor is strictly preceded by anything.
pub proof fn law_unknown_incomparable<T, P: FinPartOrd<T>>(
    fpo: P,
    unknown: T,
    other: T,
    below: Result<bool, P::Error>,
    above: Result<bool, P::Error>,
)
    requires
        fpo.wf(),
        !mentions(fpo.facts(), unknown),
        call_ensures(P::lt, (&fpo, &unknown, &other), below),
        call_ensures(P::lt, (&fpo, &other, &unknown), above),
    ensures
        below == Ok::<bool, P::Error>(false),
        above == Ok::<bool, P::Error>(false),
{
}

/// No fact names an element before `add` has been given it: the empty order
/// names nothing, and `add(lo, hi)` names nothing new but `lo` and `hi`.
pub proof fn law_unknown_until_added<T, P: FinPartOrd<T>>(
    fresh: P,
    before: P,
    lo: T,
    hi: T,
    after: P,
    x: T,
)
    requires
        P::elements_ok(),
        call_ensures(P::empty, (), fresh),
        before.wf(),
        lo != hi ==> before.has_room(),
        call_ensures(P::add, (before, lo, hi), Ok(after)),
    ensures
        !mentions(fresh.facts(), x),
        x != lo && x != hi && !mentions(before.facts(), x) ==> !mentions(after.facts(), x),
{
}

/// Representations agree, step by step: two that hold the same facts give
/// the same answer to `add(lo, hi)`, hold the same facts after it, and give
/// the same answer to `le(x, y)`. Two empty ones hold the same facts. So two
/// representations that were given the same facts in the same order agree on
/// every query.
pub proof fn law_representations_agree<T: PartialEq, P: FinPartOrd<T>, Q: FinPartOrd<T>>(
    p: P,
    q: Q,
    lo: T,
    hi: T,
    p_added: Result<P, P::Error>,
    q_added: Result<Q, Q::Error>,
    x: T,
    y: T,
    p_answer: Result<bool, P::Error>,
    q_answer: Result<bool, Q::Error>,
)
    requires
        p.wf(),
        q.wf(),
        lo != hi ==> p.has_room() && q.has_room(),
        obeys_concrete_eq::<T>(),
        p.facts() == q.facts(),
        call_ensures(P::add, (p, lo, hi), p_added),
        call_ensures(Q::add, (q, lo, hi), q_added),
        call_ensures(P::le, (&p, &x, &y), p_answer),
        call_ensures(Q::le, (&q, &x, &y), q_answer),
    ensures
        p_added is Ok <==> q_added is Ok,
        p_added is Ok ==> p_added->Ok_0.facts() == q_added->Ok_0.facts(),
        p_answer matches Ok(a) && q_answer matches Ok(b) && a == b,
{
}

/// Two empty representations hold the same facts: none.
pub proof fn law_empty_agree<T, P: FinPartOrd<T>, Q: FinPartOrd<T>>(p: P, q: Q)
    requires
        P::elements_ok(),
        Q::elements_ok(),
        call_ensures(P::empty, (), p),
        call_ensures(Q::empty, (), q),
    ensures
        p.facts() == q.facts(),
{
}

} // verus!
