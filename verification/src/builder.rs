use vstd::prelude::*;
use itertools::Itertools;
use std::cmp::Ordering;
use vstd::relations::total_ordering;
use crate::sources::{first_some, lemma_first_some, Source, Sources};

verus! {

/// The order of priority keys `(position, priority)`: by priority, then by position.
pub open spec fn priority_leq(a: (usize, usize), b: (usize, usize)) -> bool {
    a.1 < b.1 || (a.1 == b.1 && a.0 <= b.0)
}

/// `priority_leq` as a relation.
pub open spec fn by_priority() -> spec_fn((usize, usize), (usize, usize)) -> bool {
    |a: (usize, usize), b: (usize, usize)| priority_leq(a, b)
}

/// Each position of `prios` paired with its priority.
pub open spec fn priority_keys(prios: Seq<usize>) -> Seq<(usize, usize)> {
    Seq::new(prios.len(), |i: int| (i as usize, prios[i]))
}

/// The positions of `prios` listed by increasing priority, equal priorities
/// in the order of their positions.
pub open spec fn priority_order(prios: Seq<usize>) -> Seq<usize> {
    priority_keys(prios).sort_by(by_priority()).map_values(
        |k: (usize, usize)| k.0,
    )
}

/// Compares two priority keys by their priority alone.
fn compare_priority(a: &(usize, usize), b: &(usize, usize)) -> (o: Ordering)
    ensures
        (o == Ordering::Less) == (a.1 < b.1),
        (o == Ordering::Equal) == (a.1 == b.1),
        (o == Ordering::Greater) == (a.1 > b.1),
{
    if a.1 < b.1 {
        Ordering::Less
    } else if a.1 == b.1 {
        Ordering::Equal
    } else {
        Ordering::Greater
    }
}

/// Sorts priority keys with `Itertools::sorted_by`, comparing priorities only.
/// The crate collects the keys into a `Vec` and calls `sort_by`, a stable
/// sort, so keys of equal priority keep their order, which is the order of
/// their positions. The contract claims exactly that: the result is the keys
/// ordered by priority, then by position.
#[verifier::external_body]
fn sort_keys_by_priority(keys: Vec<(usize, usize)>) -> (sorted: Vec<(usize, usize)>)
    requires
        forall|i: int| 0 <= i < keys.len() ==> #[trigger] keys[i].0 == i,
    ensures
        sorted@ == keys@.sort_by(by_priority()),
{
    keys.into_iter().sorted_by(|a, b| compare_priority(a, b)).collect()
}

/// Collects sources together with their priorities, then orders them.
pub struct SourcesBuilder<S> {
    sources: Vec<S>,
    priorities: Vec<usize>,
}

impl<S> SourcesBuilder<S> {
    #[verifier::type_invariant]
    spec fn well_formed(&self) -> bool {
        self.sources.len() == self.priorities.len()
    }

    /// The sources added so far, in the order they were added.
    pub closed spec fn sources(&self) -> Seq<S> {
        self.sources@
    }

    /// The priority recorded for each source, position by position.
    pub closed spec fn priorities(&self) -> Seq<usize> {
        self.priorities@
    }

    pub fn new() -> (res: Self)
        ensures
            res.sources() == Seq::<S>::empty(),
            res.priorities() == Seq::<usize>::empty(),
    {
        SourcesBuilder { sources: Vec::new(), priorities: Vec::new() }
    }

    /// Adds a source with the priority that the source reports.
    pub fn using(self, source: S) -> (res: Self) where S: Source
        ensures
            res.sources() == self.sources().push(source),
            res.priorities() == self.priorities().push(source.spec_priority()),
    {
        proof {
            use_type_invariant(&self);
        }
        let SourcesBuilder { mut sources, mut priorities } = self;
        priorities.push(source.priority());
        sources.push(source);
        SourcesBuilder { sources, priorities }
    }

    /// Sets the priority of the source added last to `priority`; with no
    /// source added yet, the builder comes back as it was.
    pub fn with_priority(self, priority: usize) -> (res: Self)
        ensures
            res.sources() == self.sources(),
            res.priorities() == (if self.priorities().len() > 0 {
                self.priorities().update(self.priorities().len() - 1, priority)
            } else {
                self.priorities()
            }),
    {
        proof {
            use_type_invariant(&self);
        }
        let SourcesBuilder { sources, mut priorities } = self;
        let n = priorities.len();
        if n > 0 {
            priorities.set(n - 1, priority);
        }
        SourcesBuilder { sources, priorities }
    }

    /// The sources ordered by priority, lowest first; sources of equal
    /// priority keep the order in which they were added.
    pub fn finalize(self) -> (res: Sources<S>)
        ensures
            res@ == priority_order(self.priorities()).map_values(|i: usize| self.sources()[i as int]),
    {
        proof {
            use_type_invariant(&self);
        }
        let SourcesBuilder { sources, priorities } = self;
        let ghost old_sources = sources@;
        let n = sources.len();
        let order = sorted_positions(&priorities);
        proof {
            lemma_priority_order(priorities@);
        }
        // Move each source into a slot; slot `j` holds source `n - 1 - j`.
        let mut rest = sources;
        let mut slots: Vec<Option<S>> = Vec::new();
        while rest.len() > 0
            invariant
                n == old_sources.len(),
                rest@.len() + slots@.len() == n,
                rest@ == old_sources.take(rest@.len() as int),
                forall|j: int| 0 <= j < slots@.len() ==> #[trigger] slots@[j] == Some(old_sources[n - 1 - j]),
            decreases rest@.len(),
        {
            let s = rest.pop().unwrap();
            slots.push(Some(s));
            assert(rest@ =~= old_sources.take(rest@.len() as int));
        }
        let ghost ord = priority_order(priorities@);
        let mut out: Vec<S> = Vec::new();
        for k in 0..n
            invariant
                n == old_sources.len(),
                slots@.len() == n,
                order@.len() == n,
                ord.len() == n,
                order@ == ord,
                forall|m: int| 0 <= m < n ==> (#[trigger] ord[m]) < n,
                forall|a: int, b: int| 0 <= a < b < n ==> ord[a] != ord[b],
                out@ == ord.take(k as int).map_values(|i: usize| old_sources[i as int]),
                forall|j: int| 0 <= j < n ==> (#[trigger] slots@[j] is Some <==> !ord.take(k as int).contains((n - 1 - j) as usize)),
                forall|j: int| 0 <= j < n && #[trigger] slots@[j] is Some ==> slots@[j] == Some(old_sources[n - 1 - j]),
        {
            let i = order[k];
            assert(ord[k as int] == i);
            assert(!ord.take(k as int).contains(i)) by {
                if ord.take(k as int).contains(i) {
                    let m = choose|m: int| 0 <= m < k && ord.take(k as int)[m] == i;
                    assert(ord[m] == ord[k as int]);
                }
            }
            let ghost before = slots@;
            let s = slots[n - 1 - i].take().unwrap();
            out.push(s);
            assert(slots@ == before.update(n - 1 - i, None));
            assert(out@ =~= ord.take(k + 1).map_values(|i: usize| old_sources[i as int]));
            let ghost t0 = ord.take(k as int);
            let ghost t1 = ord.take(k + 1);
            assert(t1 =~= t0.push(i));
            assert forall|j: int| 0 <= j < n implies (#[trigger] slots@[j] is Some <==> !ord.take(k + 1).contains((n - 1 - j) as usize)) by {
                let x = (n - 1 - j) as usize;
                if j == n - 1 - i {
                    assert(t1[k as int] == i);
                } else {
                    assert(slots@[j] == before[j]);
                    assert(x != i);
                    if t1.contains(x) {
                        let m = choose|m: int| 0 <= m < t1.len() && #[trigger] t1[m] == x;
                        assert(m < k);
                        assert(t0[m] == x);
                    }
                    if t0.contains(x) {
                        let m = choose|m: int| 0 <= m < t0.len() && #[trigger] t0[m] == x;
                        assert(t1[m] == x);
                    }
                }
            }
        }
        assert(ord.take(n as int) =~= ord);
        Sources::new(out)
    }
}

/// The positions of `priorities` listed by increasing priority, positions
/// of equal priority in increasing order.
pub fn sorted_positions(priorities: &Vec<usize>) -> (order: Vec<usize>)
    ensures
        order@ == priority_order(priorities@),
{
    let n = priorities.len();
    let mut keys: Vec<(usize, usize)> = Vec::new();
    for i in 0..n
        invariant
            n == priorities.len(),
            keys@ == priority_keys(priorities@).take(i as int),
    {
        keys.push((i, priorities[i]));
        assert(keys@ =~= priority_keys(priorities@).take(i + 1));
    }
    assert(keys@ =~= priority_keys(priorities@));
    let sorted = sort_keys_by_priority(keys);
    let ghost sv = priority_keys(priorities@).sort_by(by_priority());
    let mut order: Vec<usize> = Vec::new();
    for k in 0..sorted.len()
        invariant
            sorted@ == sv,
            order@ == sv.take(k as int).map_values(|p: (usize, usize)| p.0),
    {
        order.push(sorted[k].0);
        assert(order@ =~= sv.take(k + 1).map_values(|p: (usize, usize)| p.0));
    }
    assert(sv.take(sorted@.len() as int) =~= sv);
    order
}

/// Finalizing orders sources by priority: the order lists every position
/// exactly once, priorities never decrease along it, and positions of equal
/// priority stay in the order they were added.
pub proof fn lemma_priority_order(prios: Seq<usize>)
    requires
        prios.len() <= usize::MAX,
    ensures
        priority_order(prios).len() == prios.len(),
        forall|k: int| 0 <= k < prios.len() ==> #[trigger] priority_order(prios)[k] < prios.len(),
        forall|a: int, b: int|
            0 <= a < b < prios.len() ==> priority_order(prios)[a] != priority_order(prios)[b],
        forall|i: int|
            0 <= i < prios.len() ==> #[trigger] priority_order(prios).contains(i as usize),
        forall|a: int, b: int|
            #![trigger priority_order(prios)[a], priority_order(prios)[b]]
            0 <= a < b < prios.len() ==> prios[priority_order(prios)[a] as int]
                <= prios[priority_order(prios)[b] as int],
        forall|a: int, b: int|
            #![trigger priority_order(prios)[a], priority_order(prios)[b]]
            0 <= a < b < prios.len() && prios[priority_order(prios)[a] as int]
                == prios[priority_order(prios)[b] as int] ==> priority_order(prios)[a]
                < priority_order(prios)[b],
{
    let leq = by_priority();
    let keys = priority_keys(prios);
    assert(total_ordering(leq)) by {
        assert forall|a: (usize, usize), b: (usize, usize), c: (usize, usize)|
            #[trigger] leq(a, b) && #[trigger] leq(b, c) implies leq(a, c) by {}
        assert forall|a: (usize, usize), b: (usize, usize)|
            #[trigger] leq(a, b) && #[trigger] leq(b, a) implies a == b by {}
    }
    keys.lemma_sort_by_ensures(leq);
    let sorted = keys.sort_by(leq);
    assert forall|i: int, j: int| 0 <= i < keys.len() && 0 <= j < keys.len() && i != j implies keys[i] != keys[j] by {
        assert(keys[i].0 == i && keys[j].0 == j);
    }
    assert(keys.no_duplicates());
    keys.lemma_multiset_has_no_duplicates();
    sorted.lemma_multiset_has_no_duplicates_conv();
    broadcast use vstd::seq_lib::group_to_multiset_ensures;
    assert(sorted.len() == keys.len()) by {
        assert(sorted.to_multiset().len() == keys.to_multiset().len());
    }
    assert forall|k: int| 0 <= k < sorted.len() implies #[trigger] keys.contains(sorted[k]) by {
        assert(sorted.to_multiset().count(sorted[k]) > 0);
    }
    assert forall|k: int| 0 <= k < sorted.len() implies (#[trigger] sorted[k]).0 < prios.len()
        && sorted[k].1 == prios[sorted[k].0 as int] by {
        assert(keys.contains(sorted[k]));
        let i = choose|i: int| 0 <= i < keys.len() && keys[i] == sorted[k];
        assert(keys[i].0 == i);
    }
    assert forall|a: int, b: int| 0 <= a < b < sorted.len() implies #[trigger] leq(sorted[a], sorted[b]) && sorted[a].0 != sorted[b].0 by {
        assert(sorted[a] != sorted[b]);
        assert(sorted[a].1 == prios[sorted[a].0 as int]);
        assert(sorted[b].1 == prios[sorted[b].0 as int]);
    }
    let ord = priority_order(prios);
    assert forall|k: int| 0 <= k < prios.len() implies #[trigger] ord[k] == sorted[k].0 by {}
    assert forall|a: int, b: int| 0 <= a < b < prios.len() implies prios[#[trigger] ord[a] as int] <= prios[#[trigger] ord[b] as int]
        && (prios[ord[a] as int] == prios[ord[b] as int] ==> ord[a] < ord[b]) by {
        assert(leq(sorted[a], sorted[b]));
    }
    assert forall|i: int| 0 <= i < prios.len() implies #[trigger] priority_order(prios).contains(
        i as usize,
    ) by {
        assert(keys[i] == (i as usize, prios[i]));
        assert(keys.to_multiset().count(keys[i]) > 0);
        assert(sorted.contains(keys[i]));
        let k = choose|k: int| 0 <= k < sorted.len() && sorted[k] == keys[i];
        assert(priority_order(prios)[k] == i as usize);
    }
}

/// Whether the source at `j` comes before the source at `i` in the order
/// `finalize` gives: a lower priority, or the same one and added earlier.
pub open spec fn ranks_before(prios: Seq<usize>, j: int, i: int) -> bool {
    prios[j] < prios[i] || (prios[j] == prios[i] && j <= i)
}

/// A search over finalized sources gives the answer of the source with the
/// lowest priority among those that answered, ties going to the source added
/// first; it gives nothing when no source answered. `answers[i]` is the
/// answer of the source added `i`-th.
pub proof fn lemma_search_after_finalize(prios: Seq<usize>, answers: Seq<Option<String>>)
    requires
        prios.len() <= usize::MAX,
        answers.len() == prios.len(),
    ensures
        ({
            let r = first_some(priority_order(prios).map_values(|i: usize| answers[i as int]));
            &&& r is None <==> forall|i: int| 0 <= i < answers.len() ==> #[trigger] answers[i] is None
            &&& r is Some ==> exists|j: int|
                0 <= j < answers.len() && #[trigger] answers[j] == r && forall|i: int|
                    0 <= i < answers.len() && #[trigger] answers[i] is Some ==> ranks_before(
                        prios,
                        j,
                        i,
                    )
        }),
{
    let ord = priority_order(prios);
    let b = ord.map_values(|i: usize| answers[i as int]);
    lemma_priority_order(prios);
    lemma_first_some(b);
    let r = first_some(b);
    assert forall|i: int| 0 <= i < answers.len() && #[trigger] answers[i] is Some implies exists|
        k: int,
    | 0 <= k < b.len() && ord[k] == i && #[trigger] b[k] is Some by {
        assert(ord.contains(i as usize));
        let k = choose|k: int| 0 <= k < ord.len() && ord[k] == i as usize;
        assert(b[k] == answers[i]);
    }
    if r is None {
        assert forall|i: int| 0 <= i < answers.len() implies #[trigger] answers[i] is None by {
            if answers[i] is Some {
                let k = choose|k: int| 0 <= k < b.len() && ord[k] == i && #[trigger] b[k] is Some;
            }
        }
    } else {
        let k = choose|k: int|
            0 <= k < b.len() && #[trigger] b[k] == r && forall|i: int| 0 <= i < k ==> #[trigger] b[i] is None;
        let j = ord[k] as int;
        assert(answers[j] == r);
        assert forall|i: int| 0 <= i < answers.len() && #[trigger] answers[i] is Some implies ranks_before(
            prios,
            j,
            i,
        ) by {
            let k2 = choose|k2: int| 0 <= k2 < b.len() && ord[k2] == i && #[trigger] b[k2] is Some;
            if k2 < k {
                assert(b[k2] is None);
            } else if k2 > k {
                assert(prios[ord[k] as int] <= prios[ord[k2] as int]);
            }
        }
        assert(exists|i: int| 0 <= i < answers.len() && #[trigger] answers[i] is Some) by {
            assert(answers[j] is Some);
        }
    }
}

} // verus!
