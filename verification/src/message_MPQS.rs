//! The coordinator of the message-passing sieve.
//!
//! Workers sieve polynomials and report what they find; the coordinator
//! alone owns the cursor of the polynomial generator and the relations. It
//! is a state machine: a report from a worker makes it either collect on or,
//! once there are enough relations, solve; a request from a worker makes it
//! move the cursor.

use vstd::prelude::*;
use rug::Integer;
use crate::algebra::algebra;
use crate::big::{copy, following_prime, val};
use crate::manager::{Holdings, RelationManager};
use crate::polynomial::{is_search_of, next_root, seek_root};
use crate::relation::{triples, Relation};
use crate::serial_MPQS::{solved, unsolved, InitResult};
use crate::sieve::{partial_views, Batch};

verus! {

/// What the coordinator holds between two messages.
pub struct Coordinator {
    /// The relations collected and the partial relations on hold.
    pub manager: RelationManager,
    /// The last root that was handed out, or where the search starts.
    pub cursor: Integer,
}

/// What the coordinator does after a report.
pub enum Progress {
    /// There are not enough relations yet, or the solver found nothing in
    /// them: the workers sieve on.
    Collecting,
    /// The solver found a proper divisor: the work is done.
    Done(Integer),
}

/// What is held when the relations `rels` have been collected and no
/// partial relation is on hold.
pub open spec fn collection(rels: Seq<Relation>) -> Holdings {
    Holdings { relations: triples(rels), partials: Map::empty() }
}

/// Decides between collecting on and the end of the work, from the relations
/// collected so far. With more relations than primes in the factor base the
/// solver is called; a proper divisor that it finds ends the work.
pub fn solve(n: &Integer, init: &InitResult, collected: &Vec<Relation>) -> (r: Progress)
    requires
        init.wf(),
        val(*n) > 1,
    ensures
        match r {
            Progress::Done(g) => 1 < val(g) < val(*n) && val(*n) % val(g) == 0 && solved(
                collection(collected@),
                init.factorbase@,
                val(*n),
                val(g),
            ),
            Progress::Collecting => unsolved(collection(collected@), init.factorbase@, val(*n)),
        },
{
    if collected.len() > init.factorbase.len() && collected.len() <= 0xFFFF_FFFF {
        let found = algebra(init.factorbase.as_slice(), collected.as_slice(), n);
        if let Some(g) = found {
            return Progress::Done(g);
        }
    }
    Progress::Collecting
}

impl Coordinator {
    /// A coordinator that holds no relation, with the cursor where `init`
    /// starts the search.
    pub fn new(init: &InitResult) -> (c: Self)
        ensures
            c.manager.holdings().relations == Seq::<crate::relation::Triple>::empty(),
            c.manager.holdings().partials == Map::<u64, crate::relation::Triple>::empty(),
            val(c.cursor) == val(init.roota),
    {
        Coordinator { manager: RelationManager::new(), cursor: copy(&init.roota) }
    }

    /// Moves the cursor to the next prime and tells whether it is accepted
    /// as a root. An accepted root is handed to a worker; the cursor only
    /// moves up, so no root is handed out twice.
    pub fn advance(&mut self, n: &Integer) -> (accepted: bool)
        ensures
            val(final(self).cursor) == following_prime(val(old(self).cursor)),
            val(final(self).cursor) > val(old(self).cursor),
            accepted == (crate::big::symbol(val(*n), val(final(self).cursor)) == 1),
            final(self).manager == old(self).manager,
    {
        let (next, accepted) = next_root(n, &self.cursor);
        self.cursor = next;
        accepted
    }

    /// Moves the cursor on to the next accepted root, for `max_steps` steps
    /// at most, and hands that root out. Every prime that the cursor passes
    /// on the way was turned away; when none is accepted there is no root,
    /// and the cursor has made all its steps.
    pub fn hand_out(&mut self, n: &Integer, max_steps: u64) -> (root: Option<Integer>)
        ensures
            final(self).manager == old(self).manager,
            exists|k: nat| #[trigger]
                is_search_of(
                    val(*n),
                    val(old(self).cursor),
                    max_steps as nat,
                    k,
                    val(final(self).cursor),
                    root.is_some(),
                ),
            root.is_some() ==> val(root.unwrap()) == val(final(self).cursor) && val(
                final(self).cursor,
            ) > val(old(self).cursor) && crate::big::symbol(val(*n), val(root.unwrap())) == 1,
    {
        let (next, accepted) = seek_root(n, &self.cursor, max_steps);
        let ghost k = choose|k: nat| #[trigger]
            is_search_of(
                val(*n),
                val(old(self).cursor),
                max_steps as nat,
                k,
                val(next),
                accepted,
            );
        self.cursor = next;
        let root = if accepted {
            Some(copy(&self.cursor))
        } else {
            None
        };
        assert(is_search_of(
            val(*n),
            val(old(self).cursor),
            max_steps as nat,
            k,
            val(self.cursor),
            root.is_some(),
        ));
        root
    }

    /// Takes in what a worker reports. With more relations than primes in
    /// the factor base the solver is called; a proper divisor that it finds
    /// ends the work.
    pub fn receive(&mut self, n: &Integer, init: &InitResult, batch: &Batch) -> (r: Progress)
        requires
            init.wf(),
            val(*n) > 1,
        ensures
            final(self).cursor == old(self).cursor,
            final(self).manager.holdings() == old(self).manager.holdings().with_fulls(
                triples(batch.smooths@),
                batch.smooths.len() as int,
            ).with_partials(partial_views(batch.partials@), batch.partials.len() as int),
            match r {
                Progress::Done(g) => 1 < val(g) < val(*n) && val(*n) % val(g) == 0 && solved(
                    final(self).manager.holdings(),
                    init.factorbase@,
                    val(*n),
                    val(g),
                ),
                Progress::Collecting => unsolved(
                    final(self).manager.holdings(),
                    init.factorbase@,
                    val(*n),
                ),
            },
    {
        self.manager.absorb(batch);
        solve(n, init, &self.manager.relations)
    }
}

} // verus!
