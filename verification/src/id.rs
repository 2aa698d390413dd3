//! Identifiers that tell events and segments apart while they are edited.

use vstd::prelude::*;

verus! {

pub type Id = u32;

/// Hands out identifiers in sequence, wrapping around after `u32::MAX`.
pub struct IdGen {
    next: u32,
}

/// The identifier that follows `id`.
pub open spec fn next_id(id: u32) -> u32 {
    if id == u32::MAX { 0 } else { (id + 1) as u32 }
}

/// The identifier `k` places after `first`.
pub open spec fn id_after(first: u32, k: nat) -> u32
    decreases k,
{
    if k == 0 {
        first
    } else {
        next_id(id_after(first, (k - 1) as nat))
    }
}

/// Counting `a` and then `b` identifiers on is counting `a + b` on.
pub proof fn lemma_id_after_add(first: u32, a: nat, b: nat)
    ensures
        id_after(id_after(first, a), b) == id_after(first, a + b),
    decreases b,
{
    if b > 0 {
        lemma_id_after_add(first, a, (b - 1) as nat);
    }
}

impl IdGen {
    /// The identifier that the next call of [`gen_id`] returns.
    pub closed spec fn peek(&self) -> u32 {
        self.next
    }

    pub fn new() -> (r: Self)
        ensures
            r.peek() == 0,
    {
        IdGen { next: 0 }
    }

    /// A generator whose next identifier is `next`.
    pub fn starting_at(next: u32) -> (r: Self)
        ensures
            r.peek() == next,
    {
        IdGen { next }
    }
}

/// Returns a fresh identifier.
pub fn gen_id(ids: &mut IdGen) -> (r: Id)
    ensures
        r == old(ids).peek(),
        final(ids).peek() == next_id(old(ids).peek()),
{
    let id = ids.next;
    ids.next = if id == u32::MAX { 0 } else { id + 1 };
    id
}

} // verus!
