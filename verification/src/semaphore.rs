//! A counting semaphore: a non-negative counter of permits.
//!
//! `wait` consumes one permit and blocks while none is available; `release`
//! returns one, with no upper cap, so a caller may give back more than it
//! took and raise the count above the initial value. The counter itself,
//! with its transitions, is what this module verifies; sharing it between
//! threads is the business of an unverified shell that guards a `Semaphore`
//! with a lock and re-checks the count before letting a blocked caller
//! proceed.

use vstd::prelude::*;

verus! {

/// A counting semaphore holding the current number of permits.
pub struct Semaphore {
    count: u32,
}

impl Semaphore {
    /// The current number of permits, as contracts see it.
    pub closed spec fn value(&self) -> u32 {
        self.count
    }

    /// Instantiates a semaphore with a given initial value.
    pub fn new(initial_value: u32) -> (result: Self)
        ensures
            result.value() == initial_value,
    {
        Semaphore { count: initial_value }
    }

    /// Acquires the semaphore: consumes one permit. A `wait` that finds the
    /// count at zero blocks until another caller releases a permit; with
    /// exclusive access to the semaphore nobody could, and the call would
    /// never return, so the verified transition asks for a positive count.
    /// A concurrent shell blocks on its own lock until the count is
    /// positive and only then lets the waiter take its permit.
    pub fn wait(&mut self)
        requires
            old(self).value() > 0,
        ensures
            final(self).value() == old(self).value() - 1,
    {
        self.count = self.count - 1;
    }

    /// Releases the semaphore once, raising the count by one. No upper
    /// bound is enforced: unmatched releases simply raise the count above
    /// the initial value. Only the machine limit of the counter itself is
    /// asked of the caller.
    pub fn release(&mut self)
        requires
            old(self).value() < u32::MAX,
        ensures
            final(self).value() == old(self).value() + 1,
    {
        self.count = self.count + 1;
    }

    /// Returns the current value of the semaphore. Purely observational:
    /// the count is left as it is.
    ///
    /// The semaphore starts with an initial value, that is decremented
    /// every time a `wait()` call completes and incremented every time a
    /// `release()` call completes.
    pub fn get_current_value(&self) -> (result: u32)
        ensures
            result == self.value(),
    {
        self.count
    }
}

/// One `wait` followed by one `release` leaves the observed value where it
/// started: the two transitions, as the contracts of `wait` and `release`
/// state them, cancel out.
pub proof fn lemma_wait_release_round_trip(
    before: Semaphore,
    after_wait: Semaphore,
    after_release: Semaphore,
)
    requires
        before.value() > 0,
        after_wait.value() == before.value() - 1,
        after_release.value() == after_wait.value() + 1,
    ensures
        after_release.value() == before.value(),
{
}

/// One completed operation on the counter: a `wait` that has consumed its
/// permit, or a `release`.
pub enum SemOp {
    Wait,
    Release,
}

/// The counter after one operation, over mathematical integers: exactly
/// the transition that the contracts of `wait` and `release` state.
pub open spec fn apply_op(c: int, op: SemOp) -> int {
    match op {
        SemOp::Wait => c - 1,
        SemOp::Release => c + 1,
    }
}

/// The counter after a whole history of operations, first to last.
pub open spec fn apply_ops(c: int, ops: Seq<SemOp>) -> int
    decreases ops.len(),
{
    if ops.len() == 0 {
        c
    } else {
        apply_ops(apply_op(c, ops[0]), ops.drop_first())
    }
}

/// A history is admissible when every `wait` in it completed at a positive
/// count — which is just what the semaphore enforces, whatever the
/// interleaving of its callers: a `wait` that finds the count at zero does
/// not complete until a `release` has raised it.
pub open spec fn admissible(c: int, ops: Seq<SemOp>) -> bool
    decreases ops.len(),
{
    ops.len() == 0 || ((ops[0] is Wait ==> c > 0) && admissible(apply_op(c, ops[0]), ops.drop_first()))
}

/// How many operations of a history are waits.
pub open spec fn num_waits(ops: Seq<SemOp>) -> int
    decreases ops.len(),
{
    if ops.len() == 0 {
        0
    } else {
        (if ops[0] is Wait {
            1int
        } else {
            0int
        }) + num_waits(ops.drop_first())
    }
}

/// How many operations of a history are releases.
pub open spec fn num_releases(ops: Seq<SemOp>) -> int
    decreases ops.len(),
{
    if ops.len() == 0 {
        0
    } else {
        (if ops[0] is Release {
            1int
        } else {
            0int
        }) + num_releases(ops.drop_first())
    }
}

/// The net effect of a history: each wait takes one permit, each release
/// gives one back, so the final count is the initial one plus the
/// difference.
pub proof fn lemma_apply_ops_net(c: int, ops: Seq<SemOp>)
    ensures
        apply_ops(c, ops) == c + num_releases(ops) - num_waits(ops),
    decreases ops.len(),
{
    if ops.len() > 0 {
        lemma_apply_ops_net(apply_op(c, ops[0]), ops.drop_first());
    }
}

/// An admissible history starting from a non-negative count ends at a
/// non-negative count.
pub proof fn lemma_admissible_nonnegative(c: int, ops: Seq<SemOp>)
    requires
        c >= 0,
        admissible(c, ops),
    ensures
        apply_ops(c, ops) >= 0,
    decreases ops.len(),
{
    if ops.len() > 0 {
        lemma_admissible_nonnegative(apply_op(c, ops[0]), ops.drop_first());
    }
}

/// Every prefix of an admissible history is admissible.
pub proof fn lemma_admissible_prefix(c: int, ops: Seq<SemOp>, k: int)
    requires
        admissible(c, ops),
        0 <= k <= ops.len(),
    ensures
        admissible(c, ops.take(k)),
    decreases ops.len(),
{
    if k > 0 {
        lemma_admissible_prefix(apply_op(c, ops[0]), ops.drop_first(), k - 1);
        assert(ops.take(k).drop_first() =~= ops.drop_first().take(k - 1));
    }
}

/// The count is never observed negative: at every point of an admissible
/// history starting from a non-negative count — that is, under any
/// interleaving of `wait` and `release` calls — the count so far is
/// non-negative.
pub proof fn lemma_count_never_negative(c: int, ops: Seq<SemOp>)
    requires
        c >= 0,
        admissible(c, ops),
    ensures
        forall|k: int| 0 <= k <= ops.len() ==> apply_ops(c, #[trigger] ops.take(k)) >= 0,
{
    assert forall|k: int| 0 <= k <= ops.len() implies apply_ops(c, #[trigger] ops.take(k)) >= 0 by {
        lemma_admissible_prefix(c, ops, k);
        lemma_admissible_nonnegative(c, ops.take(k));
    }
}

/// Conservation: a history with as many releases as waits — any number of
/// callers each pairing every `wait` with a `release` — brings the count
/// back to the initial value.
pub proof fn lemma_conservation(c: int, ops: Seq<SemOp>)
    requires
        num_waits(ops) == num_releases(ops),
    ensures
        apply_ops(c, ops) == c,
{
    lemma_apply_ops_net(c, ops);
}

/// A history made of waits alone.
pub open spec fn all_waits(ops: Seq<SemOp>) -> bool {
    forall|i: int| 0 <= i < ops.len() ==> ops[i] is Wait
}

/// Without any release, no more waits can complete than there were permits
/// to begin with: after `c` callers have taken the `c` initial permits, a
/// further `wait` cannot complete until a `release` happens, and one
/// `release` lets at most one further `wait` through.
pub proof fn lemma_waits_limited_by_count(c: int, ops: Seq<SemOp>)
    requires
        c >= 0,
        admissible(c, ops),
        all_waits(ops),
    ensures
        ops.len() <= c,
    decreases ops.len(),
{
    if ops.len() > 0 {
        assert(ops[0] is Wait);
        assert forall|i: int| 0 <= i < ops.drop_first().len() implies ops.drop_first()[i] is Wait by {
            assert(ops.drop_first()[i] == ops[i + 1]);
        }
        lemma_waits_limited_by_count(c - 1, ops.drop_first());
    }
}

/// Bounded in-flight work: at every point of an admissible history
/// starting from `c` permits, at most `c` more waits than releases have
/// completed — with a semaphore sized to a worker limit, never more than
/// that many admitted tasks are outstanding at once.
pub proof fn lemma_in_flight_bounded(c: int, ops: Seq<SemOp>)
    requires
        c >= 0,
        admissible(c, ops),
    ensures
        forall|k: int|
            0 <= k <= ops.len() ==> num_waits(#[trigger] ops.take(k)) - num_releases(ops.take(k))
                <= c,
{
    assert forall|k: int|
        0 <= k <= ops.len() implies num_waits(#[trigger] ops.take(k)) - num_releases(ops.take(k))
        <= c by {
        lemma_admissible_prefix(c, ops, k);
        lemma_admissible_nonnegative(c, ops.take(k));
        lemma_apply_ops_net(c, ops.take(k));
    }
}

} // verus!
