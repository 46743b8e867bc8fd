//! A partial order kept as the bare list of its declared facts.

use crate::order::FinPartOrd;
use crate::relation::{
    acyclic, lemma_acyclic_after_insert, lemma_closed_region, lemma_fact_precedes,
    lemma_precedes_first_step, lemma_precedes_mentions, lemma_precedes_transitive, le, precedes,
};
use vstd::laws_eq::obeys_concrete_eq;
use vstd::prelude::*;
use vstd::set_lib::{lemma_int_range, lemma_len_subset, set_int_range};

verus! {

/// One declared fact: `lo` precedes `hi`.
#[derive(Debug)]
pub struct Pair<T> {
    pub lo: T,
    pub hi: T,
}

impl<T> Pair<T> {
    pub fn new(lo: T, hi: T) -> (pair: Self)
        ensures
            pair.lo == lo,
            pair.hi == hi,
    {
        Pair { lo, hi }
    }
}

impl<T: Clone> Clone for Pair<T> {
    fn clone(&self) -> (copy: Self)
        ensures
            cloned(self.lo, copy.lo),
            cloned(self.hi, copy.hi),
    {
        Pair { lo: self.lo.clone(), hi: self.hi.clone() }
    }
}

/// A finite partial order stored as the list of its declared facts.
///
/// Nothing that follows by reflexivity or transitivity is stored. A query
/// chases the facts forward from its lower element, so memory stays small and
/// a query may look at every fact once for every fact it follows. Elements
/// need no more than `==`.
#[derive(Debug)]
pub struct PairPartOrd<T> where T: Eq {
    pairs: Vec<Pair<T>>,
}

/// The answer to a fact that would make two distinct elements precede each
/// other.
#[derive(Clone, Debug, PartialEq, Eq, PartialOrd, Ord, Hash)]
pub struct AntisymmetryError;

/// The positions of `marks` that are still unmarked.
spec fn unmarked(marks: Seq<bool>) -> Set<int> {
    Set::new(|j: int| 0 <= j < marks.len() && !marks[j])
}

proof fn lemma_unmarked_finite(marks: Seq<bool>)
    ensures
        unmarked(marks).finite(),
        unmarked(marks).len() <= marks.len(),
{
    lemma_int_range(0, marks.len() as int);
    lemma_len_subset(unmarked(marks), set_int_range(0, marks.len() as int));
}

proof fn lemma_unmarked_after_mark(marks: Seq<bool>, j: int)
    requires
        0 <= j < marks.len(),
        !marks[j],
    ensures
        unmarked(marks.update(j, true)).len() + 1 == unmarked(marks).len(),
{
    lemma_unmarked_finite(marks);
    assert(unmarked(marks.update(j, true)) =~= unmarked(marks).remove(j));
}

impl<T: Eq + Clone> Clone for PairPartOrd<T> {
    /// A copy with storage of its own: fact by fact, each side a clone of
    /// the side it stands for.
    fn clone(&self) -> (copy: Self)
        ensures
            copy@.len() == self@.len(),
            forall|i: int|
                0 <= i < self@.len() ==> cloned(self@[i].0, (#[trigger] copy@[i]).0) && cloned(
                    self@[i].1,
                    copy@[i].1,
                ),
            (forall|a: T, b: T| cloned(a, b) ==> a == b) ==> copy@ == self@,
    {
        let copy = PairPartOrd { pairs: self.pairs.clone() };
        proof {
            if forall|a: T, b: T| cloned(a, b) ==> a == b {
                assert(copy@ =~= self@);
            }
        }
        copy
    }
}

impl<T: Eq> View for PairPartOrd<T> {
    type V = Seq<(T, T)>;

    /// The declared facts in the order in which they were taken up.
    closed spec fn view(&self) -> Seq<(T, T)> {
        Seq::new(self.pairs@.len(), |i: int| (self.pairs@[i].lo, self.pairs@[i].hi))
    }
}

/// Position `j` is on the stack.
spec fn holds(stack: Seq<usize>, j: int) -> bool {
    exists|k: int| 0 <= k < stack.len() && #[trigger] stack[k] == j
}

/// The state of a search from `lo` for `hi` over `facts`: `seen` marks the
/// facts found so far and `stack` holds the marked facts still to follow.
///
/// Every marked fact starts at `lo` or at something that `lo` precedes, and
/// none ends at `hi`; every fact that starts at `lo`, or where a marked fact
/// that is no longer on the stack ends, is marked.
spec fn searching<T>(facts: Seq<(T, T)>, lo: T, hi: T, seen: Seq<bool>, stack: Seq<usize>) -> bool {
    &&& seen.len() == facts.len()
    &&& forall|k: int|
        0 <= k < stack.len() ==> 0 <= #[trigger] stack[k] < facts.len() && seen[stack[k] as int]
    &&& forall|j: int|
        0 <= j < facts.len() && #[trigger] seen[j] ==> le(facts.to_set(), lo, facts[j].0)
            && facts[j].1 != hi
    &&& forall|j: int| 0 <= j < facts.len() && (#[trigger] facts[j]).0 == lo ==> seen[j]
    &&& forall|j: int, m: int|
        0 <= j < facts.len() && 0 <= m < facts.len() && #[trigger] seen[j] && !holds(stack, j)
            && (#[trigger] facts[m]).0 == facts[j].1 ==> seen[m]
}

/// What one expansion from `from` does to the marks and the stack, given
/// that no fact from `from` ends at `hi`: it marks the facts that start at
/// `from` and pushes those that were not marked before.
spec fn expanded<T>(
    facts: Seq<(T, T)>,
    from: T,
    hi: T,
    seen0: Seq<bool>,
    stack0: Seq<usize>,
    seen1: Seq<bool>,
    stack1: Seq<usize>,
) -> bool {
    &&& seen0.len() == facts.len()
    &&& seen1.len() == facts.len()
    &&& forall|j: int| 0 <= j < facts.len() && (#[trigger] facts[j]).0 == from ==> facts[j].1 != hi
    &&& forall|j: int|
        0 <= j < facts.len() ==> (#[trigger] seen1[j] <==> seen0[j] || facts[j].0 == from)
    &&& stack0.is_prefix_of(stack1)
    &&& forall|k: int|
        stack0.len() <= k < stack1.len() ==> 0 <= #[trigger] stack1[k] < facts.len()
            && facts[stack1[k] as int].0 == from
    &&& forall|j: int|
        0 <= j < facts.len() && #[trigger] seen1[j] && !seen0[j] ==> holds(stack1, j)
    &&& unmarked(seen1).len() + stack1.len() == unmarked(seen0).len() + stack0.len()
}

/// Expanding from `lo` itself starts a search.
proof fn lemma_search_start<T>(
    facts: Seq<(T, T)>,
    lo: T,
    hi: T,
    seen0: Seq<bool>,
    seen1: Seq<bool>,
    stack1: Seq<usize>,
)
    requires
        forall|j: int| 0 <= j < seen0.len() ==> !seen0[j],
        expanded(facts, lo, hi, seen0, Seq::<usize>::empty(), seen1, stack1),
    ensures
        searching(facts, lo, hi, seen1, stack1),
{
    assert forall|j: int, m: int|
        0 <= j < facts.len() && 0 <= m < facts.len() && #[trigger] seen1[j] && !holds(stack1, j)
            && (#[trigger] facts[m]).0 == facts[j].1 implies seen1[m] by {
        assert(!seen0[j]);
    }
}

/// Taking the top fact off the stack and expanding from where it ends keeps
/// a search going.
proof fn lemma_search_step<T>(
    facts: Seq<(T, T)>,
    lo: T,
    hi: T,
    seen0: Seq<bool>,
    stack0: Seq<usize>,
    seen1: Seq<bool>,
    stack1: Seq<usize>,
)
    requires
        searching(facts, lo, hi, seen0, stack0),
        stack0.len() > 0,
        expanded(
            facts,
            facts[stack0.last() as int].1,
            hi,
            seen0,
            stack0.drop_last(),
            seen1,
            stack1,
        ),
    ensures
        searching(facts, lo, hi, seen1, stack1),
{
    let declared = facts.to_set();
    let i = stack0.last() as int;
    let from = facts[i].1;
    let rest = stack0.drop_last();
    assert(0 <= stack0[stack0.len() - 1] < facts.len() && seen0[i]);
    assert(facts.contains(facts[i]));
    lemma_fact_precedes(declared, facts[i].0, from);
    if lo != facts[i].0 {
        lemma_precedes_transitive(declared, lo, facts[i].0, from);
    }
    assert(precedes(declared, lo, from));
    assert forall|k: int| 0 <= k < stack1.len() implies 0 <= #[trigger] stack1[k] < facts.len()
        && seen1[stack1[k] as int] by {
        if k < rest.len() {
            assert(stack1[k] == rest[k]);
            assert(rest[k] == stack0[k]);
        }
    }
    assert forall|j: int, m: int|
        0 <= j < facts.len() && 0 <= m < facts.len() && #[trigger] seen1[j] && !holds(stack1, j)
            && (#[trigger] facts[m]).0 == facts[j].1 implies seen1[m] by {
        if j != i {
            assert(seen0[j]);
            if holds(stack0, j) {
                let k = choose|k: int| 0 <= k < stack0.len() && #[trigger] stack0[k] == j;
                assert(rest[k] == j);
                assert(stack1[k] == j);
            }
            assert(seen0[m]);
        }
    }
}

impl<T: Eq> PairPartOrd<T> where T: Clone {
    /// Marks every fact that starts at `from` and puts the newly marked ones
    /// on `stack`, unless one of them ends at `hi`: then it stops and says so.
    fn expand(&self, from: &T, hi: &T, seen: &mut Vec<bool>, stack: &mut Vec<usize>) -> (hit: bool)
        requires
            obeys_concrete_eq::<T>(),
            old(seen)@.len() == self@.len(),
        ensures
            hit ==> self@.contains((*from, *hi)),
            !hit ==> expanded(
                self@,
                *from,
                *hi,
                old(seen)@,
                old(stack)@,
                final(seen)@,
                final(stack)@,
            ),
    {
        let n = self.pairs.len();
        let mut j: usize = 0;
        while j < n
            invariant
                obeys_concrete_eq::<T>(),
                n == self@.len(),
                n == self.pairs@.len(),
                j <= n,
                seen@.len() == n,
                old(seen)@.len() == n,
                forall|m: int| 0 <= m < j && (#[trigger] self@[m]).0 == *from ==> self@[m].1 != *hi,
                forall|m: int|
                    0 <= m < n ==> (#[trigger] seen@[m] <==> old(seen)@[m] || (m < j && self@[m].0
                        == *from)),
                old(stack)@.is_prefix_of(stack@),
                forall|k: int|
                    old(stack)@.len() <= k < stack@.len() ==> 0 <= #[trigger] stack@[k] < n
                        && self@[stack@[k] as int].0 == *from,
                forall|m: int|
                    0 <= m < n && #[trigger] seen@[m] && !old(seen)@[m] ==> holds(stack@, m),
                unmarked(seen@).len() + stack@.len() == unmarked(old(seen)@).len() + old(
                    stack,
                )@.len(),
            decreases n - j,
        {
            proof {
                reveal(obeys_concrete_eq);
            }
            if self.pairs[j].lo == *from {
                if self.pairs[j].hi == *hi {
                    assert(self@[j as int] == (*from, *hi));
                    return true;
                }
                if !seen[j] {
                    let ghost before = stack@;
                    proof {
                        lemma_unmarked_after_mark(seen@, j as int);
                    }
                    seen[j] = true;
                    stack.push(j);
                    proof {
                        assert(stack@[before.len() as int] == j);
                        assert forall|m: int|
                            0 <= m < n && #[trigger] seen@[m] && !old(seen)@[m] implies holds(
                            stack@,
                            m,
                        ) by {
                            if m != j {
                                let k = choose|k: int|
                                    0 <= k < before.len() && #[trigger] before[k] == m;
                                assert(stack@[k] == m);
                            }
                        }
                    }
                }
            }
            j += 1;
        }
        false
    }

    /// Whether some chain of stored facts leads from `lo` to `hi`.
    ///
    /// The search goes depth first over the facts, with a list of the facts
    /// still to follow in place of recursion, and follows no fact twice. It
    /// ends on every list of facts, acyclic or not.
    pub fn chase(&self, lo: &T, hi: &T) -> (found: bool)
        requires
            obeys_concrete_eq::<T>(),
        ensures
            found == precedes(self@.to_set(), *lo, *hi),
    {
        let n = self.pairs.len();
        let mut seen: Vec<bool> = Vec::new();
        let mut k: usize = 0;
        while k < n
            invariant
                k <= n,
                seen@.len() == k,
                forall|j: int| 0 <= j < k ==> !seen@[j],
            decreases n - k,
        {
            seen.push(false);
            k += 1;
        }
        let mut stack: Vec<usize> = Vec::new();
        let ghost seen0 = seen@;
        if self.expand(lo, hi, &mut seen, &mut stack) {
            proof {
                lemma_fact_precedes(self@.to_set(), *lo, *hi);
            }
            return true;
        }
        proof {
            lemma_search_start(self@, *lo, *hi, seen0, seen@, stack@);
        }
        while stack.len() > 0
            invariant
                obeys_concrete_eq::<T>(),
                n == self.pairs@.len(),
                searching(self@, *lo, *hi, seen@, stack@),
            decreases unmarked(seen@).len() + stack@.len(),
        {
            let ghost stack0 = stack@;
            let ghost seen0 = seen@;
            let i = stack.pop().unwrap();
            assert(stack0[stack0.len() - 1] == i);
            assert(stack@ == stack0.drop_last());
            let from = &self.pairs[i].hi;
            assert(self@[i as int].1 == *from);
            if self.expand(from, hi, &mut seen, &mut stack) {
                proof {
                    let declared = self@.to_set();
                    let start = self@[i as int].0;
                    assert(self@.contains(self@[i as int]));
                    assert(seen0[i as int]);
                    lemma_fact_precedes(declared, start, *from);
                    lemma_fact_precedes(declared, *from, *hi);
                    lemma_precedes_transitive(declared, start, *from, *hi);
                    if *lo != start {
                        lemma_precedes_transitive(declared, *lo, start, *hi);
                    }
                }
                return true;
            }
            proof {
                lemma_search_step(self@, *lo, *hi, seen0, stack0, seen@, stack@);
            }
        }
        proof {
            lemma_search_exhausted(self@, seen@, *lo, *hi);
        }
        false
    }

    /// Whether no fact is stored.
    pub fn is_empty(&self) -> (empty: bool)
        ensures
            empty == (self@.len() == 0),
    {
        self.pairs.is_empty()
    }

    /// The number of stored facts. A fact that was declared twice counts
    /// twice.
    pub fn len(&self) -> (len: usize)
        ensures
            len == self@.len(),
    {
        self.pairs.len()
    }

    /// Makes room for `additional` more facts. The order stays as it is.
    pub fn reserve(&mut self, additional: usize)
        ensures
            final(self)@ == old(self)@,
    {
        self.pairs.reserve(additional);
    }

    /// Whether the stored facts are acyclic: no fact is a self-pair and no
    /// element of a fact precedes itself. This never fails.
    pub fn check(&self) -> (res: Result<bool, AntisymmetryError>)
        requires
            obeys_concrete_eq::<T>(),
        ensures
            res == Ok::<bool, AntisymmetryError>(acyclic(self@.to_set())),
    {
        let n = self.pairs.len();
        let mut i: usize = 0;
        while i < n
            invariant
                obeys_concrete_eq::<T>(),
                n == self.pairs@.len(),
                n == self@.len(),
                i <= n,
                forall|j: int|
                    0 <= j < i ==> !precedes(self@.to_set(), (#[trigger] self@[j]).0, self@[j].0),
            decreases n - i,
        {
            proof {
                reveal(obeys_concrete_eq);
            }
            let p = &self.pairs[i];
            assert(self@[i as int] == (p.lo, p.hi));
            if p.lo == p.hi {
                proof {
                    assert(self@.contains(self@[i as int]));
                    lemma_fact_precedes(self@.to_set(), p.lo, p.hi);
                }
                return Ok(false);
            }
            if self.chase(&p.lo, &p.lo) || self.chase(&p.hi, &p.hi) {
                return Ok(false);
            }
            i += 1;
        }
        proof {
            let declared = self@.to_set();
            assert forall|x: T| !#[trigger] precedes(declared, x, x) by {
                if precedes(declared, x, x) {
                    let mid = lemma_precedes_first_step(declared, x, x);
                    assert(self@.contains((x, mid)));
                    let j = choose|j: int| 0 <= j < self@.len() && self@[j] == (x, mid);
                    assert(self@[j].0 == x);
                }
            }
        }
        Ok(true)
    }

    /// Whether the instance holds a partial order: `check` as a plain `bool`.
    pub fn valid(&self) -> (ok: bool)
        requires
            obeys_concrete_eq::<T>(),
        ensures
            ok == acyclic(self@.to_set()),
    {
        match self.check() {
            Ok(ok) => ok,
            Err(_) => false,
        }
    }
}

impl<T: Eq> FinPartOrd<T> for PairPartOrd<T> where T: Clone {
    type Error = AntisymmetryError;

    open spec fn elements_ok() -> bool {
        obeys_concrete_eq::<T>()
    }

    open spec fn wf(&self) -> bool {
        obeys_concrete_eq::<T>() && acyclic(self@.to_set())
    }

    open spec fn facts(&self) -> Set<(T, T)> {
        self@.to_set()
    }

    open spec fn has_room(&self) -> bool {
        true
    }

    proof fn lemma_facts_acyclic(&self) {
    }

    fn empty() -> (fpo: Self)
        ensures
            fpo@ == Seq::<(T, T)>::empty(),
    {
        let fpo = PairPartOrd { pairs: Vec::new() };
        proof {
            assert(fpo@ =~= Seq::<(T, T)>::empty());
            assert(fpo@.to_set() =~= Set::<(T, T)>::empty());
            assert forall|x: T| !#[trigger] precedes(fpo@.to_set(), x, x) by {
                if precedes(fpo@.to_set(), x, x) {
                    lemma_precedes_mentions(fpo@.to_set(), x, x);
                }
            }
        }
        fpo
    }

    /// Appends the fact and looks at the whole list again; a list that is no
    /// longer acyclic is dropped with the error.
    fn add(self, lo: T, hi: T) -> (res: Result<Self, AntisymmetryError>)
        ensures
            res matches Ok(fpo) ==> fpo@ == (if lo == hi {
                self@
            } else {
                self@.push((lo, hi))
            }),
    {
        proof {
            reveal(obeys_concrete_eq);
        }
        if lo == hi {
            return Ok(self);
        }
        let ghost before = self@;
        let mut fpo = self;
        fpo.pairs.push(Pair::new(lo, hi));
        proof {
            assert(fpo@ =~= before.push((lo, hi)));
            before.lemma_push_to_set_commute((lo, hi));
            lemma_fact_precedes(fpo@.to_set(), lo, hi);
            lemma_acyclic_after_insert(before.to_set(), lo, hi);
        }
        if !fpo.valid() {
            return Err(AntisymmetryError);
        }
        Ok(fpo)
    }

    fn lt(&self, lo: &T, hi: &T) -> (res: Result<bool, AntisymmetryError>)
        ensures
            res == Ok::<bool, AntisymmetryError>(precedes(self@.to_set(), *lo, *hi)),
    {
        let found = self.chase(lo, hi);
        proof {
            if found {
                lemma_precedes_mentions(self@.to_set(), *lo, *hi);
            }
        }
        Ok(found)
    }
}

/// A search that has followed every marked fact, has marked every fact that
/// starts at `lo` or where a marked fact ends, and has met none that ends at
/// `hi`, shows that `lo` does not precede `hi`.
proof fn lemma_search_exhausted<T>(facts: Seq<(T, T)>, seen: Seq<bool>, lo: T, hi: T)
    requires
        seen.len() == facts.len(),
        forall|j: int| 0 <= j < facts.len() && #[trigger] seen[j] ==> facts[j].1 != hi,
        forall|j: int| 0 <= j < facts.len() && (#[trigger] facts[j]).0 == lo ==> seen[j],
        forall|j: int, m: int|
            0 <= j < facts.len() && 0 <= m < facts.len() && #[trigger] seen[j] && (
            #[trigger] facts[m]).0 == facts[j].1 ==> seen[m],
    ensures
        !precedes(facts.to_set(), lo, hi),
{
    let declared = facts.to_set();
    let region = Set::new(
        |x: T| exists|j: int| 0 <= j < facts.len() && #[trigger] seen[j] && facts[j].1 == x,
    );
    if precedes(declared, lo, hi) {
        let mid = lemma_precedes_first_step(declared, lo, hi);
        assert(facts.contains((lo, mid)));
        let m0 = choose|m: int| 0 <= m < facts.len() && facts[m] == (lo, mid);
        assert(seen[m0] && facts[m0].1 == mid);
        assert(region.contains(mid));
        assert forall|a: T, b: T| region.contains(a) && #[trigger] declared.contains(
            (a, b),
        ) implies region.contains(b) by {
            let j = choose|j: int| 0 <= j < facts.len() && #[trigger] seen[j] && facts[j].1 == a;
            assert(facts.contains((a, b)));
            let m = choose|m: int| 0 <= m < facts.len() && facts[m] == (a, b);
            assert(seen[m] && facts[m].1 == b);
        }
        if mid != hi {
            lemma_closed_region(declared, region, mid, hi);
        }
        assert(region.contains(hi));
        assert(false);
    }
}

} // verus!
