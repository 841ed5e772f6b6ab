//! Sharing relations between sieve workers.
//!
//! The workers of the shared-memory sieve put what they find into two
//! collections that all of them can reach: a bounded queue for the full
//! relations and a table, keyed by the large prime, for the partial relations
//! on hold. Other workers touch the collections between any two calls, so
//! nothing is known of what a call finds there; what is done with whatever
//! was found is decided here.

use vstd::prelude::*;
use chashmap::CHashMap;
use crossbeam::queue::ArrayQueue;
use rug::Integer;
use crate::manager::{combine_partials, copy_relation};
use crate::big::val;
use crate::relation::{combined, triple, Relation, Triple};
use crate::serial_MPQS::InitResult;
use crate::sieve::{degenerate, sieve_outcome, sieve_root, Batch};

verus! {

/// `chashmap::CHashMap`, a hash table that many threads may use at once.
/// Nothing is said of what it holds.
#[verifier::external_type_specification]
#[verifier::external_body]
#[verifier::reject_recursive_types(K)]
#[verifier::reject_recursive_types(V)]
pub struct ExCHashMap<K, V>(CHashMap<K, V>);

/// `crossbeam::queue::ArrayQueue`, a bounded queue that many threads may use
/// at once. Nothing is said of what it holds.
#[verifier::external_type_specification]
#[verifier::external_body]
#[verifier::reject_recursive_types(T)]
pub struct ExArrayQueue<T>(ArrayQueue<T>);

/// What becomes of a partial relation and of the entry of its large prime.
pub struct Settled {
    /// What the table holds for the large prime afterwards.
    pub stays: Option<Relation>,
    /// The full relation that leaves for the queue.
    pub leaves: Option<Relation>,
}

/// `both` is the full relation that the partial relation `fresh` makes with
/// some partner of the same large prime.
pub open spec fn is_merged(both: Triple, fresh: Triple, large: int) -> bool {
    exists|partner: Triple| both == #[trigger] combined(partner, fresh, large)
}

/// Decides what becomes of a partial relation, given what is on hold for its
/// large prime. With a partner the two leave as one full relation and
/// nothing stays on hold; without one the partial relation is put on hold.
pub fn settle(held: Option<Relation>, fresh: Relation, large: u64) -> (r: Settled)
    ensures
        match held {
            Some(partner) => r.stays.is_none() && r.leaves.is_some() && triple(r.leaves.unwrap())
                == combined(triple(partner), triple(fresh), large as int),
            None => r.stays == Some(fresh) && r.leaves.is_none(),
        },
{
    match held {
        Some(partner) => Settled {
            stays: None,
            leaves: Some(combine_partials(&partner, &fresh, large)),
        },
        None => Settled { stays: Some(fresh), leaves: None },
    }
}

/// `CHashMap::alter` with [`settle`]: in one step, under the lock of the
/// entry, the table hands over what it holds for the large prime, and what
/// `settle` lets stay is put in its place. The result is what `settle` lets
/// leave: nothing, or the partial relation merged with the entry that was
/// held.
#[verifier::external_body]
fn exchange(table: &CHashMap<u64, Relation>, large: u64, fresh: Relation) -> (released: Option<
    Relation,
>)
    ensures
        released.is_some() ==> is_merged(triple(released.unwrap()), triple(fresh), large as int),
{
    let mut released = None;
    table.alter(large, |held| {
        let settled = settle(held, fresh, large);
        released = settled.leaves;
        settled.stays
    });
    released
}

/// `ArrayQueue::push`: appends to the queue, unless the queue is full at
/// that moment; then the value itself comes back.
#[verifier::external_body]
fn offer(queue: &ArrayQueue<Relation>, rel: Relation) -> (refused: Option<Relation>)
    ensures
        refused.is_some() ==> refused.unwrap() == rel,
{
    match queue.push(rel) {
        Ok(()) => None,
        Err(back) => Some(back),
    }
}

/// `ArrayQueue::pop`: takes the oldest value out of the queue, if there is
/// one at that moment.
#[verifier::external_body]
fn poll(queue: &ArrayQueue<Relation>) -> (r: Option<Relation>) {
    queue.pop()
}

/// `ArrayQueue::len`: the number of values in the queue at that moment.
#[verifier::external_body]
fn size(queue: &ArrayQueue<Relation>) -> (r: usize) {
    queue.len()
}

/// Whether the solver can be called: it can when the queue holds more
/// relations than the factor base has primes.
pub fn has_enough(queued: usize, primes: usize) -> (r: bool)
    ensures
        r == (queued > primes),
{
    queued > primes
}

/// `longer` is `shorter` with something appended.
pub open spec fn extends(longer: Seq<Relation>, shorter: Seq<Relation>) -> bool {
    longer.len() >= shorter.len() && longer.subrange(0, shorter.len() as int) == shorter
}

/// The relation `t` is one of the list `rels`.
pub open spec fn is_one_of(t: Triple, rels: Seq<Relation>) -> bool {
    exists|i: int| 0 <= i < rels.len() && t == triple(#[trigger] rels[i])
}

/// The relation `t` is one that the worker offers to the queue for the
/// batch: a full relation of the batch, or a partial relation of the batch
/// merged with a partner of the same large prime.
pub open spec fn was_offered(t: Triple, batch: Batch) -> bool {
    ||| is_one_of(t, batch.smooths@)
    ||| exists|j: int|
        0 <= j < batch.partials@.len() && is_merged(
            t,
            triple((#[trigger] batch.partials@[j]).1),
            batch.partials@[j].0 as int,
        )
}

/// Offers the relations of a list to the queue, in order. One that finds
/// the queue full is appended to `back`, so that no relation is lost.
pub fn hand_in(rels: &Vec<Relation>, smooths: &ArrayQueue<Relation>, back: &mut Vec<Relation>)
    ensures
        extends(final(back)@, old(back)@),
        final(back)@.len() <= old(back)@.len() + rels@.len(),
        forall|k: int|
            old(back)@.len() <= k < final(back)@.len() ==> is_one_of(
                triple(#[trigger] final(back)@[k]),
                rels@,
            ),
{
    let ghost start = back@;
    let mut i: usize = 0;
    proof {
        assert(back@.subrange(0, start.len() as int) =~= start);
    }
    while i < rels.len()
        invariant
            i <= rels.len(),
            extends(back@, start),
            back@.len() <= start.len() + i,
            forall|k: int|
                start.len() <= k < back@.len() ==> is_one_of(triple(#[trigger] back@[k]), rels@),
        decreases rels.len() - i,
    {
        if let Some(refused) = offer(smooths, copy_relation(&rels[i])) {
            let ghost before = back@;
            back.push(refused);
            proof {
                assert(back@.subrange(0, start.len() as int) =~= before.subrange(
                    0,
                    start.len() as int,
                ));
                assert(triple(refused) == triple(rels@[i as int]));
                assert forall|k: int| start.len() <= k < back@.len() implies is_one_of(
                    triple(#[trigger] back@[k]),
                    rels@,
                ) by {
                    if k < before.len() {
                        assert(back@[k] == before[k]);
                    }
                }
            }
        }
        i = i + 1;
    }
}

/// Hands what the sieve of one polynomial found to the shared collections.
/// What finds no place there is appended to `back`, so that no relation is
/// lost: the worker offers it again later.
///
/// Every full relation is offered to the queue. Every partial relation is
/// settled against the entry of its large prime in the table, in one step:
/// with a partner the two are offered to the queue as one full relation and
/// the entry is gone, without one the partial relation is put on hold. A
/// full relation that finds the queue full goes to `back`.
pub fn share(
    batch: &Batch,
    smooths: &ArrayQueue<Relation>,
    partials: &CHashMap<u64, Relation>,
    back: &mut Vec<Relation>,
)
    ensures
        extends(final(back)@, old(back)@),
        final(back)@.len() <= old(back)@.len() + batch.smooths@.len() + batch.partials@.len(),
        forall|k: int|
            old(back)@.len() <= k < final(back)@.len() ==> was_offered(
                triple(#[trigger] final(back)@[k]),
                *batch,
            ),
{
    let ghost start = back@;
    hand_in(&batch.smooths, smooths, back);
    let mut j: usize = 0;
    while j < batch.partials.len()
        invariant
            j <= batch.partials.len(),
            extends(back@, start),
            back@.len() <= start.len() + batch.smooths@.len() + j,
            forall|k: int|
                start.len() <= k < back@.len() ==> was_offered(triple(#[trigger] back@[k]), *batch),
        decreases batch.partials.len() - j,
    {
        let large = batch.partials[j].0;
        let fresh = copy_relation(&batch.partials[j].1);
        if let Some(both) = exchange(partials, large, fresh) {
            if let Some(refused) = offer(smooths, both) {
                let ghost before = back@;
                back.push(refused);
                proof {
                    assert(back@.subrange(0, start.len() as int) =~= before.subrange(
                        0,
                        start.len() as int,
                    ));
                    assert(is_merged(
                        triple(refused),
                        triple(batch.partials@[j as int].1),
                        batch.partials@[j as int].0 as int,
                    ));
                    assert forall|k: int| start.len() <= k < back@.len() implies was_offered(
                        triple(#[trigger] back@[k]),
                        *batch,
                    ) by {
                        if k < before.len() {
                            assert(back@[k] == before[k]);
                        }
                    }
                }
            }
        }
        j = j + 1;
    }
}

/// The number of relations of what the sieve of a root gave.
pub open spec fn yield_size(sieved: Option<Batch>) -> nat {
    match sieved {
        Some(batch) => batch.smooths@.len() + batch.partials@.len(),
        None => 0,
    }
}

/// `back` is what a worker may hold back after its work on a root for which
/// the sieve gave `sieved`: not more relations than it held back before and
/// the sieve gave, each of them one that it held back before or one that it
/// offered to the queue for what the sieve gave.
pub open spec fn is_held_back(
    back: Seq<Relation>,
    backlog: Seq<Relation>,
    sieved: Option<Batch>,
) -> bool {
    &&& back.len() <= backlog.len() + yield_size(sieved)
    &&& forall|k: int|
        0 <= k < back.len() ==> is_one_of(triple(#[trigger] back[k]), backlog) || (
        sieved.is_some() && was_offered(triple(back[k]), sieved.unwrap()))
}

/// The work of one worker on one root. What the worker holds back from
/// earlier roots is offered to the queue again, then the polynomial of the
/// root is sieved and what it yields is shared. The result tells whether the
/// queue then holds more relations than the factor base has primes, so that
/// the solver can be called, and holds what found no place this time. A root
/// without a polynomial and a degenerate polynomial yield nothing.
pub fn work(
    n: &Integer,
    init: &InitResult,
    root: &Integer,
    smooths: &ArrayQueue<Relation>,
    partials: &CHashMap<u64, Relation>,
    backlog: &Vec<Relation>,
) -> (r: (bool, Vec<Relation>))
    requires
        init.wf(),
    ensures
        exists|sieved: Option<Batch>| #[trigger]
            sieve_outcome(sieved, val(*n), *init, val(*root)) && is_held_back(
                r.1@,
                backlog@,
                sieved,
            ),
        backlog@.len() == 0 && degenerate(val(*root) * val(*root), init.factorbase@) ==> r.1@.len()
            == 0,
{
    let mut back: Vec<Relation> = Vec::new();
    hand_in(backlog, smooths, &mut back);
    let ghost middle = back@;
    let sieved = sieve_root(n, init, root);
    if let Some(batch) = &sieved {
        share(batch, smooths, partials, &mut back);
        proof {
            assert forall|k: int| 0 <= k < back@.len() implies is_one_of(
                triple(#[trigger] back@[k]),
                backlog@,
            ) || was_offered(triple(back@[k]), *batch) by {
                if k < middle.len() {
                    assert(back@[k] == back@.subrange(0, middle.len() as int)[k]);
                    assert(back@[k] == middle[k]);
                }
            }
        }
    }
    proof {
        assert(is_held_back(back@, backlog@, sieved));
    }
    (has_enough(size(smooths), init.factorbase.len()), back)
}

/// Moves to `into` the relations that are in the queue, oldest first, and
/// stops when the queue is found empty or after as many relations as the
/// queue held at the start.
pub fn drain(smooths: &ArrayQueue<Relation>, into: &mut Vec<Relation>)
    ensures
        final(into)@.len() >= old(into)@.len(),
        final(into)@.subrange(0, old(into)@.len() as int) == old(into)@,
{
    let limit = size(smooths);
    let mut taken: usize = 0;
    while taken < limit
        invariant
            into@.len() >= old(into)@.len(),
            into@.subrange(0, old(into)@.len() as int) == old(into)@,
        decreases limit - taken,
    {
        match poll(smooths) {
            Some(rel) => {
                let ghost before = into@;
                into.push(rel);
                proof {
                    assert(into@.subrange(0, old(into)@.len() as int) =~= before.subrange(
                        0,
                        old(into)@.len() as int,
                    ));
                }
            },
            None => {
                return ;
            },
        }
        taken = taken + 1;
    }
}

} // verus!
