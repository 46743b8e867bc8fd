//! The order that a set of declared facts denotes.
//!
//! A fact `(lo, hi)` declares that `lo` precedes `hi`. The order is never
//! stored: `precedes` is the transitive closure of the facts and `le` is its
//! reflexive closure. Everything here is specification and proof.

use vstd::prelude::*;

verus! {

/// `path` walks along declared facts: it has at least two elements and every
/// element is declared to precede the next one.
pub open spec fn is_chain<T>(facts: Set<(T, T)>, path: Seq<T>) -> bool {
    &&& path.len() >= 2
    &&& forall|i: int|
        #![trigger path[i]]
        0 <= i < path.len() - 1 ==> facts.contains((path[i], path[i + 1]))
}

/// `lo` strictly precedes `hi`: some chain of declared facts leads from `lo`
/// to `hi`.
pub open spec fn precedes<T>(facts: Set<(T, T)>, lo: T, hi: T) -> bool {
    exists|path: Seq<T>| #[trigger]
        is_chain(facts, path) && path.first() == lo && path.last() == hi
}

/// `lo` precedes or equals `hi`.
pub open spec fn le<T>(facts: Set<(T, T)>, lo: T, hi: T) -> bool {
    lo == hi || precedes(facts, lo, hi)
}

/// Some declared fact names `x`, on either side.
pub open spec fn mentions<T>(facts: Set<(T, T)>, x: T) -> bool {
    exists|y: T|
        #![trigger facts.contains((x, y))]
        #![trigger facts.contains((y, x))]
        facts.contains((x, y)) || facts.contains((y, x))
}

/// No element strictly precedes itself. This is what makes `le` a partial
/// order: reflexivity and transitivity hold of any set of facts.
pub open spec fn acyclic<T>(facts: Set<(T, T)>) -> bool {
    forall|x: T| !#[trigger] precedes(facts, x, x)
}

/// A declared fact is a chain of one step.
pub proof fn lemma_fact_precedes<T>(facts: Set<(T, T)>, lo: T, hi: T)
    requires
        facts.contains((lo, hi)),
    ensures
        precedes(facts, lo, hi),
{
    let path = seq![lo, hi];
    assert(is_chain(facts, path));
}

/// Two chains that meet join into one.
pub proof fn lemma_precedes_transitive<T>(facts: Set<(T, T)>, x: T, y: T, z: T)
    requires
        precedes(facts, x, y),
        precedes(facts, y, z),
    ensures
        precedes(facts, x, z),
{
    let p = choose|p: Seq<T>| #[trigger] is_chain(facts, p) && p.first() == x && p.last() == y;
    let q = choose|q: Seq<T>| #[trigger] is_chain(facts, q) && q.first() == y && q.last() == z;
    let tail = q.subrange(1, q.len() as int);
    let path = p + tail;
    assert forall|i: int| 0 <= i < path.len() - 1 implies facts.contains(
        (#[trigger] path[i], path[i + 1]),
    ) by {
        if i < p.len() - 1 {
            assert(path[i] == p[i]);
            assert(path[i + 1] == p[i + 1]);
        } else if i == p.len() - 1 {
            assert(path[i] == q[0]);
            assert(path[i + 1] == q[1]);
        } else {
            let k = i - p.len() + 1;
            assert(path[i] == q[k]);
            assert(path[i + 1] == q[k + 1]);
        }
    }
    assert(is_chain(facts, path));
}

/// The first step of a chain is a declared fact, and what is left of the
/// chain leads on from there.
pub proof fn lemma_precedes_first_step<T>(facts: Set<(T, T)>, lo: T, hi: T) -> (mid: T)
    requires
        precedes(facts, lo, hi),
    ensures
        facts.contains((lo, mid)),
        le(facts, mid, hi),
{
    let p = choose|p: Seq<T>| #[trigger] is_chain(facts, p) && p.first() == lo && p.last() == hi;
    let mid = p[1];
    assert(facts.contains((p[0int], p[0int + 1])));
    if p.len() > 2 {
        let rest = p.subrange(1, p.len() as int);
        assert forall|i: int| 0 <= i < rest.len() - 1 implies facts.contains(
            (#[trigger] rest[i], rest[i + 1]),
        ) by {
            assert(rest[i] == p[i + 1]);
            assert(rest[i + 1] == p[i + 1 + 1]);
        }
        assert(is_chain(facts, rest));
    }
    mid
}

/// Whatever precedes something, or is preceded by something, is named by a
/// declared fact.
pub proof fn lemma_precedes_mentions<T>(facts: Set<(T, T)>, lo: T, hi: T)
    requires
        precedes(facts, lo, hi),
    ensures
        mentions(facts, lo),
        mentions(facts, hi),
{
    let p = choose|p: Seq<T>| #[trigger] is_chain(facts, p) && p.first() == lo && p.last() == hi;
    assert(facts.contains((p[0int], p[0int + 1])));
    let k = p.len() - 2;
    assert(facts.contains((p[k], p[k + 1])));
}

/// More facts never take a precedence away.
pub proof fn lemma_precedes_monotone<T>(small: Set<(T, T)>, large: Set<(T, T)>, lo: T, hi: T)
    requires
        small.subset_of(large),
        precedes(small, lo, hi),
    ensures
        precedes(large, lo, hi),
{
    let p = choose|p: Seq<T>| #[trigger] is_chain(small, p) && p.first() == lo && p.last() == hi;
    assert forall|i: int| 0 <= i < p.len() - 1 implies large.contains(
        (#[trigger] p[i], p[i + 1]),
    ) by {
        assert(small.contains((p[i], p[i + 1])));
    }
    assert(is_chain(large, p));
}

/// A chain never leaves a set of elements that holds its start and, with an
/// element, everything that the element is declared to precede.
proof fn lemma_chain_stays_inside<T>(facts: Set<(T, T)>, region: Set<T>, path: Seq<T>, k: int)
    requires
        is_chain(facts, path),
        region.contains(path.first()),
        forall|a: T, b: T|
            region.contains(a) && #[trigger] facts.contains((a, b)) ==> region.contains(b),
        0 <= k < path.len(),
    ensures
        region.contains(path[k]),
    decreases k,
{
    if k > 0 {
        lemma_chain_stays_inside(facts, region, path, k - 1);
        assert(facts.contains((path[k - 1], path[k - 1 + 1])));
    }
}

/// A set of elements that is closed under declared facts holds whatever its
/// members precede.
pub proof fn lemma_closed_region<T>(facts: Set<(T, T)>, region: Set<T>, lo: T, hi: T)
    requires
        region.contains(lo),
        forall|a: T, b: T|
            region.contains(a) && #[trigger] facts.contains((a, b)) ==> region.contains(b),
        precedes(facts, lo, hi),
    ensures
        region.contains(hi),
{
    let p = choose|p: Seq<T>| #[trigger] is_chain(facts, p) && p.first() == lo && p.last() == hi;
    lemma_chain_stays_inside(facts, region, p, p.len() - 1);
}

/// A chain over the facts with `(lo, hi)` added either avoids the new fact
/// or runs through it.
proof fn lemma_chain_after_insert<T>(facts: Set<(T, T)>, lo: T, hi: T, path: Seq<T>)
    requires
        is_chain(facts.insert((lo, hi)), path),
    ensures
        precedes(facts, path.first(), path.last()) || (le(facts, path.first(), lo) && le(
            facts,
            hi,
            path.last(),
        )),
    decreases path.len(),
{
    let more = facts.insert((lo, hi));
    let x = path[0];
    let mid = path[1];
    let y = path.last();
    assert(more.contains((path[0int], path[0int + 1])));
    if (x, mid) != (lo, hi) {
        lemma_fact_precedes(facts, x, mid);
    }
    if path.len() > 2 {
        let rest = path.subrange(1, path.len() as int);
        assert forall|i: int| 0 <= i < rest.len() - 1 implies more.contains(
            (#[trigger] rest[i], rest[i + 1]),
        ) by {
            assert(rest[i] == path[i + 1]);
            assert(rest[i + 1] == path[i + 1 + 1]);
        }
        assert(is_chain(more, rest));
        assert(rest.first() == mid && rest.last() == y);
        lemma_chain_after_insert(facts, lo, hi, rest);
        if (x, mid) != (lo, hi) {
            if precedes(facts, mid, y) {
                lemma_precedes_transitive(facts, x, mid, y);
            } else if mid != lo {
                lemma_precedes_transitive(facts, x, mid, lo);
            }
        }
    }
}

/// The order after one more fact: `x` precedes `y` exactly if it did before,
/// or if `x` was at or below the new fact's `lo` and `y` at or above its `hi`.
pub proof fn lemma_precedes_after_insert<T>(facts: Set<(T, T)>, lo: T, hi: T, x: T, y: T)
    ensures
        precedes(facts.insert((lo, hi)), x, y) <==> precedes(facts, x, y) || (le(facts, x, lo)
            && le(facts, hi, y)),
{
    let more = facts.insert((lo, hi));
    if precedes(more, x, y) {
        let p = choose|p: Seq<T>| #[trigger] is_chain(more, p) && p.first() == x && p.last() == y;
        lemma_chain_after_insert(facts, lo, hi, p);
    }
    if precedes(facts, x, y) {
        lemma_precedes_monotone(facts, more, x, y);
    }
    if le(facts, x, lo) && le(facts, hi, y) {
        lemma_fact_precedes(more, lo, hi);
        if x != lo {
            lemma_precedes_monotone(facts, more, x, lo);
            lemma_precedes_transitive(more, x, lo, hi);
        }
        if hi != y {
            lemma_precedes_monotone(facts, more, hi, y);
            lemma_precedes_transitive(more, x, hi, y);
        }
    }
}

/// One more fact keeps the facts acyclic exactly if it is no self-pair and
/// its `hi` did not already precede its `lo`.
pub proof fn lemma_acyclic_after_insert<T>(facts: Set<(T, T)>, lo: T, hi: T)
    requires
        acyclic(facts),
    ensures
        acyclic(facts.insert((lo, hi))) <==> lo != hi && !precedes(facts, hi, lo),
{
    let more = facts.insert((lo, hi));
    if lo != hi && !precedes(facts, hi, lo) {
        assert forall|x: T| !#[trigger] precedes(more, x, x) by {
            lemma_precedes_after_insert(facts, lo, hi, x, x);
            if le(facts, x, lo) && le(facts, hi, x) && hi != x && x != lo {
                lemma_precedes_transitive(facts, hi, x, lo);
            }
        }
    } else {
        lemma_precedes_after_insert(facts, lo, hi, lo, lo);
        assert(precedes(more, lo, lo));
    }
}

/// A map of the elements that carries every fact of one set to a fact of
/// another carries chains to chains.
pub proof fn lemma_precedes_image<A, B>(
    from: Set<(A, A)>,
    to: Set<(B, B)>,
    f: spec_fn(A) -> B,
    lo: A,
    hi: A,
)
    requires
        forall|a: A, b: A| #[trigger] from.contains((a, b)) ==> to.contains((f(a), f(b))),
        precedes(from, lo, hi),
    ensures
        precedes(to, f(lo), f(hi)),
{
    let p = choose|p: Seq<A>| #[trigger] is_chain(from, p) && p.first() == lo && p.last() == hi;
    let q = p.map_values(f);
    assert forall|i: int| 0 <= i < q.len() - 1 implies to.contains((#[trigger] q[i], q[i + 1])) by {
        assert(from.contains((p[i], p[i + 1])));
    }
    assert(is_chain(to, q));
}

/// Every element is at or below itself, whatever the facts.
pub proof fn lemma_le_reflexive<T>(facts: Set<(T, T)>, x: T)
    ensures
        le(facts, x, x),
{
}

/// `le` is transitive, whatever the facts.
pub proof fn lemma_le_transitive<T>(facts: Set<(T, T)>, x: T, y: T, z: T)
    requires
        le(facts, x, y),
        le(facts, y, z),
    ensures
        le(facts, x, z),
{
    if x != y && y != z {
        lemma_precedes_transitive(facts, x, y, z);
    }
}

/// Over acyclic facts two elements that are each at or below the other are
/// one element.
pub proof fn lemma_le_antisymmetric<T>(facts: Set<(T, T)>, x: T, y: T)
    requires
        acyclic(facts),
        le(facts, x, y),
        le(facts, y, x),
    ensures
        x == y,
{
    if x != y {
        lemma_precedes_transitive(facts, x, y, x);
    }
}

} // verus!
