//! A queue of work items that is filled once and then drained by several
//! workers at the same time. The only state the workers share is a counter of
//! the items not yet handed out.

use vstd::prelude::*;
use std::sync::atomic::AtomicUsize;

verus! {

/// The counter after one more claim: one less, and never below zero.
pub open spec fn after_claim(remaining: usize) -> usize {
    if remaining == 0 {
        0
    } else {
        (remaining - 1) as usize
    }
}

/// The index that a claim hands out when it found the counter at `previous`
/// in a queue of `len` items: the item just below the counter, or none once
/// the counter has reached zero.
pub open spec fn claimed(previous: usize, len: nat) -> Option<int> {
    if 0 < previous <= len {
        Some(previous - 1)
    } else {
        None
    }
}

/// The counter of a queue filled with `len` items after `claims` claims.
pub open spec fn remaining_after(len: usize, claims: nat) -> usize
    decreases claims,
{
    if claims == 0 {
        len
    } else {
        after_claim(remaining_after(len, (claims - 1) as nat))
    }
}

/// The value that a claim leaves in the counter.
pub fn next_position(remaining: usize) -> (next: usize)
    ensures
        next == after_claim(remaining),
{
    remaining.saturating_sub(1)
}

/// The index of the item that goes to the worker whose claim found the
/// counter at `previous`.
pub fn claimed_index(previous: usize, len: usize) -> (index: Option<usize>)
    ensures
        match claimed(previous, len as nat) {
            Some(i) => index == Some(i as usize),
            None => index is None,
        },
{
    if 0 < previous && previous <= len {
        Some(previous - 1)
    } else {
        None
    }
}

/// Calls `AtomicUsize::fetch_update` with sequentially consistent ordering
/// and [`next_position`] as the update. The value found depends on what the
/// other workers did, so nothing is claimed of it.
#[verifier::external_body]
fn claim(pos: &AtomicUsize) -> (previous: Result<usize, usize>) {
    pos.fetch_update(
        std::sync::atomic::Ordering::SeqCst,
        std::sync::atomic::Ordering::SeqCst,
        |v| Some(next_position(v)),
    )
}

/// Concurrent queue: a fixed sequence of items and the count of those not
/// yet handed out. Items leave from the back.
pub struct StaticQueue<T> {
    items: Vec<T>,
    pos: AtomicUsize,
}

impl<T> View for StaticQueue<T> {
    type V = Seq<T>;

    closed spec fn view(&self) -> Seq<T> {
        self.items@
    }
}

impl<T> StaticQueue<T> {
    /// Create new queue holding `items`, none of them handed out.
    pub fn new(items: Vec<T>) -> (queue: Self)
        ensures
            queue@ == items@,
    {
        Self { pos: AtomicUsize::new(items.len()), items }
    }

    /// The item that goes to the worker whose claim found the counter at
    /// `previous`.
    pub fn item_at(&self, previous: usize) -> (item: Option<&T>)
        ensures
            match claimed(previous, self@.len()) {
                Some(i) => item == Some(&self@[i]),
                None => item is None,
            },
    {
        match claimed_index(previous, self.items.len()) {
            Some(i) => Some(&self.items[i]),
            None => None,
        }
    }

    /// Pop item from queue: claims the next item by one atomic update of the
    /// counter. Which item comes, if any, depends on the claims made so far
    /// by all workers.
    pub fn pop(&self) -> (item: Option<&T>)
        ensures
            item matches Some(x) ==> exists|i: int| 0 <= i < self@.len() && self@[i] == *x,
    {
        let previous: usize = match claim(&self.pos) {
            Ok(v) => v,
            Err(v) => v,
        };
        self.item_at(previous)
    }
}

/// After `claims` claims the counter of a queue of `len` items stands at
/// `len - claims`, or at zero once every item is gone.
pub proof fn lemma_remaining_after(len: usize, claims: nat)
    ensures
        remaining_after(len, claims) == if claims <= len {
            len - claims
        } else {
            0
        },
    decreases claims,
{
    if claims > 0 {
        lemma_remaining_after(len, (claims - 1) as nat);
    }
}

/// The claims made on a queue of `len` items, taken in the order in which the
/// counter saw them, hand out the items from the last to the first, each
/// once, and nothing from then on.
pub proof fn lemma_claims_in_turn(len: usize, claims: nat)
    ensures
        claimed(remaining_after(len, claims), len as nat) == if claims < len {
            Some(len - 1 - claims)
        } else {
            None
        },
{
    lemma_remaining_after(len, claims);
}

/// No item is handed to two claims.
pub proof fn lemma_claims_distinct(len: usize, first: nat, second: nat)
    requires
        first != second,
        claimed(remaining_after(len, first), len as nat) is Some,
    ensures
        claimed(remaining_after(len, first), len as nat) != claimed(
            remaining_after(len, second),
            len as nat,
        ),
{
    lemma_claims_in_turn(len, first);
    lemma_claims_in_turn(len, second);
}

} // verus!
