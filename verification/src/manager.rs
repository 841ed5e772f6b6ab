//! The relation manager: full relations pile up, partial relations wait for
//! a partner with the same large prime.

use vstd::prelude::*;
use std::collections::HashMap;
use crate::big::{copy, from_u64, times};
use crate::primes::all_prime;
use crate::relation::{combined, lemma_combined_is_accounted, triple, triples, Relation, Triple};
use crate::sieve::{partial_views, Batch};

verus! {

/// The relations collected so far and the partial relations on hold.
pub struct RelationManager {
    /// The full relations, in the order in which they came.
    pub relations: Vec<Relation>,
    /// The partial relation held for each large prime.
    pub partials: HashMap<u64, Relation>,
}

/// What a relation manager holds, as numbers.
pub struct Holdings {
    pub relations: Seq<Triple>,
    pub partials: Map<u64, Triple>,
}

impl Holdings {
    /// The holdings after a full relation has come in.
    pub open spec fn with_full(self, rel: Triple) -> Holdings {
        Holdings { relations: self.relations.push(rel), partials: self.partials }
    }

    /// The holdings after a partial relation has come in: it is combined with
    /// the one held for its large prime, which leaves the table, or else is
    /// put on hold itself.
    pub open spec fn with_partial(self, large: u64, rel: Triple) -> Holdings {
        if self.partials.contains_key(large) {
            Holdings {
                relations: self.relations.push(combined(self.partials[large], rel, large as int)),
                partials: self.partials.remove(large),
            }
        } else {
            Holdings { relations: self.relations, partials: self.partials.insert(large, rel) }
        }
    }

    /// The holdings after the first `k` of a list of full relations have come
    /// in.
    pub open spec fn with_fulls(self, rels: Seq<Triple>, k: int) -> Holdings
        decreases k,
    {
        if k <= 0 {
            self
        } else {
            self.with_fulls(rels, k - 1).with_full(rels[k - 1])
        }
    }

    /// The holdings after the first `k` of a list of partial relations have
    /// come in.
    pub open spec fn with_partials(self, parts: Seq<(u64, Triple)>, k: int) -> Holdings
        decreases k,
    {
        if k <= 0 {
            self
        } else {
            self.with_partials(parts, k - 1).with_partial(parts[k - 1].0, parts[k - 1].1)
        }
    }
}

impl Holdings {
    /// Every relation collected is accounted for with some cofactor, and
    /// every partial relation on hold waits with its large prime.
    pub open spec fn accounted(self, fb: Seq<u64>, n: int) -> bool {
        &&& forall|i: int|
            0 <= i < self.relations.len() ==> (#[trigger] self.relations[i]).is_accounted(fb, n)
        &&& forall|large: u64| #[trigger]
            self.partials.contains_key(large) ==> self.partials[large].waits_for(
                fb,
                n,
                large as int,
            )
    }
}

/// Nothing is accounted for.
pub proof fn lemma_empty_is_accounted(h: Holdings, fb: Seq<u64>, n: int)
    requires
        h.relations.len() == 0,
        h.partials == Map::<u64, Triple>::empty(),
    ensures
        h.accounted(fb, n),
{
}

/// Holdings that are accounted for stay so when a relation comes in that is
/// accounted for with the cofactor 1.
pub proof fn lemma_full_keeps_accounted(h: Holdings, rel: Triple, fb: Seq<u64>, n: int)
    requires
        h.accounted(fb, n),
        rel.accounted(fb, n, 1),
    ensures
        h.with_full(rel).accounted(fb, n),
{
    let after = h.with_full(rel);
    assert forall|i: int| 0 <= i < after.relations.len() implies (
    #[trigger] after.relations[i]).is_accounted(fb, n) by {
        if i < h.relations.len() {
            assert(after.relations[i] == h.relations[i]);
        }
    }
}

/// Holdings that are accounted for stay so when a partial relation comes in
/// that waits with its large prime, whether it is put on hold or combined
/// with the one that was held for that prime.
pub proof fn lemma_partial_keeps_accounted(
    h: Holdings,
    large: u64,
    rel: Triple,
    fb: Seq<u64>,
    n: int,
)
    requires
        n > 0,
        all_prime(fb),
        h.accounted(fb, n),
        rel.waits_for(fb, n, large as int),
    ensures
        h.with_partial(large, rel).accounted(fb, n),
{
    let after = h.with_partial(large, rel);
    if h.partials.contains_key(large) {
        let both = combined(h.partials[large], rel, large as int);
        lemma_combined_is_accounted(h.partials[large], rel, large as int, fb, n);
        assert(both.is_accounted(fb, n));
        assert forall|i: int| 0 <= i < after.relations.len() implies (
        #[trigger] after.relations[i]).is_accounted(fb, n) by {
            if i < h.relations.len() {
                assert(after.relations[i] == h.relations[i]);
            }
        }
        assert forall|l: u64| #[trigger] after.partials.contains_key(l) implies after.partials[l].waits_for(
            fb,
            n,
            l as int,
        ) by {
            assert(h.partials.contains_key(l));
        }
    } else {
        assert forall|l: u64| #[trigger] after.partials.contains_key(l) implies after.partials[l].waits_for(
            fb,
            n,
            l as int,
        ) by {
            if l != large {
                assert(h.partials.contains_key(l));
            }
        }
    }
}

/// Holdings that are accounted for stay so when a list of relations comes in
/// that are all accounted for with the cofactor 1.
pub proof fn lemma_fulls_keep_accounted(
    h: Holdings,
    rels: Seq<Triple>,
    k: int,
    fb: Seq<u64>,
    n: int,
)
    requires
        0 <= k <= rels.len(),
        h.accounted(fb, n),
        forall|i: int| 0 <= i < rels.len() ==> (#[trigger] rels[i]).accounted(fb, n, 1),
    ensures
        h.with_fulls(rels, k).accounted(fb, n),
    decreases k,
{
    if k > 0 {
        lemma_fulls_keep_accounted(h, rels, k - 1, fb, n);
        lemma_full_keeps_accounted(h.with_fulls(rels, k - 1), rels[k - 1], fb, n);
    }
}

/// Holdings that are accounted for stay so when a list of partial relations
/// comes in that all wait with their large primes.
pub proof fn lemma_partials_keep_accounted(
    h: Holdings,
    parts: Seq<(u64, Triple)>,
    k: int,
    fb: Seq<u64>,
    n: int,
)
    requires
        n > 0,
        all_prime(fb),
        0 <= k <= parts.len(),
        h.accounted(fb, n),
        forall|i: int|
            0 <= i < parts.len() ==> (#[trigger] parts[i]).1.waits_for(fb, n, parts[i].0 as int),
    ensures
        h.with_partials(parts, k).accounted(fb, n),
    decreases k,
{
    if k > 0 {
        lemma_partials_keep_accounted(h, parts, k - 1, fb, n);
        lemma_partial_keeps_accounted(
            h.with_partials(parts, k - 1),
            parts[k - 1].0,
            parts[k - 1].1,
            fb,
            n,
        );
    }
}

/// Combines two partial relations with the same large prime into one full
/// relation.
pub fn combine_partials(held: &Relation, fresh: &Relation, large: u64) -> (r: Relation)
    ensures
        triple(r) == combined(triple(*held), triple(*fresh), large as int),
{
    let x = times(&held.0, &fresh.0);
    let y = times(&fresh.1.0, &held.1.0);
    let roots = times(&held.1.1, &fresh.1.1);
    let prime = from_u64(large);
    let a = times(&roots, &prime);
    (x, (y, a))
}

/// A copy of a relation.
pub fn copy_relation(rel: &Relation) -> (r: Relation)
    ensures
        triple(r) == triple(*rel),
{
    (copy(&rel.0), (copy(&rel.1.0), copy(&rel.1.1)))
}

impl RelationManager {
    /// What the manager holds.
    pub open spec fn holdings(&self) -> Holdings {
        Holdings {
            relations: triples(self.relations@),
            partials: self.partials@.map_values(|r: Relation| triple(r)),
        }
    }

    /// A manager that holds nothing.
    pub fn new() -> (m: Self)
        ensures
            m.holdings().relations == Seq::<Triple>::empty(),
            m.holdings().partials == Map::<u64, Triple>::empty(),
    {
        let m = RelationManager { relations: Vec::new(), partials: HashMap::new() };
        proof {
            assert(m.holdings().relations =~= Seq::<Triple>::empty());
            assert(m.holdings().partials =~= Map::<u64, Triple>::empty());
        }
        m
    }

    /// Takes a full relation in.
    pub fn add_full(&mut self, rel: Relation)
        ensures
            final(self).holdings() == old(self).holdings().with_full(triple(rel)),
    {
        self.relations.push(rel);
        proof {
            assert(final(self).holdings().relations =~= old(self).holdings().relations.push(
                triple(rel),
            ));
        }
    }

    /// Takes a partial relation in. If one with the same large prime is on
    /// hold, the two leave as one full relation; else this one is put on
    /// hold.
    pub fn add_partial(&mut self, large: u64, rel: Relation)
        ensures
            final(self).holdings() == old(self).holdings().with_partial(large, triple(rel)),
    {
        broadcast use vstd::std_specs::hash::group_hash_axioms;

        match self.partials.remove(&large) {
            Some(held) => {
                let both = combine_partials(&held, &rel, large);
                self.relations.push(both);
                proof {
                    let before = old(self).holdings();
                    assert(final(self).holdings().relations =~= before.relations.push(
                        combined(before.partials[large], triple(rel), large as int),
                    ));
                    assert(final(self).holdings().partials =~= before.partials.remove(large));
                }
            },
            None => {
                self.partials.insert(large, rel);
                proof {
                    let before = old(self).holdings();
                    assert(final(self).holdings().partials =~= before.partials.insert(
                        large,
                        triple(rel),
                    ));
                }
            },
        }
    }

    /// Takes in everything that the sieve of one polynomial found: first the
    /// full relations, then the partial ones, each list in order.
    pub fn absorb(&mut self, batch: &Batch)
        ensures
            final(self).holdings() == old(self).holdings().with_fulls(
                triples(batch.smooths@),
                batch.smooths.len() as int,
            ).with_partials(partial_views(batch.partials@), batch.partials.len() as int),
    {
        let ghost start = self.holdings();
        let ghost fulls = triples(batch.smooths@);
        let ghost parts = partial_views(batch.partials@);
        let mut i: usize = 0;
        while i < batch.smooths.len()
            invariant
                i <= batch.smooths.len(),
                fulls == triples(batch.smooths@),
                self.holdings() == start.with_fulls(fulls, i as int),
            decreases batch.smooths.len() - i,
        {
            let rel = copy_relation(&batch.smooths[i]);
            self.add_full(rel);
            i = i + 1;
        }
        let ghost middle = self.holdings();
        let mut j: usize = 0;
        while j < batch.partials.len()
            invariant
                j <= batch.partials.len(),
                parts == partial_views(batch.partials@),
                self.holdings() == middle.with_partials(parts, j as int),
            decreases batch.partials.len() - j,
        {
            let rel = copy_relation(&batch.partials[j].1);
            self.add_partial(batch.partials[j].0, rel);
            j = j + 1;
        }
    }

    /// The number of full relations collected.
    pub fn count(&self) -> (r: usize)
        ensures
            r == self.holdings().relations.len(),
    {
        self.relations.len()
    }

    /// Whether there are more relations than primes in the factor base, so
    /// that the solver is sure to find a dependency.
    pub fn is_complete(&self, primes: usize) -> (r: bool)
        ensures
            r == (self.holdings().relations.len() > primes),
    {
        self.relations.len() > primes
    }
}

} // verus!
