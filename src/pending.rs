use rand::Rng;
use std::collections::HashSet;
use vstd::prelude::*;
use vstd::std_specs::hash::group_hash_axioms;

verus! {

/// Tokens are drawn from `0 .. TOKEN_SPACE`.
pub const TOKEN_SPACE: usize = 10000;

/// Relies on rand's `thread_rng().gen_range(0..bound)`: a value below `bound`,
/// which panics on an empty range.
#[verifier::external_body]
fn random_below(bound: usize) -> (r: usize)
    requires
        bound > 0,
    ensures
        r < bound,
{
    rand::thread_rng().gen_range(0..bound)
}

/// What settling `token` does: it reports whether the token was waiting,
/// and it waits no longer.
pub open spec fn settled(before: PendingRequests, after: PendingRequests, token: usize, r: bool) -> bool {
    &&& r == before.waiting().contains(token)
    &&& after.waiting() == before.waiting().remove(token)
}

/// The tokens of the outbound requests that still wait for their outcome.
/// A request is settled once, by whichever of its response or its timeout
/// comes first.
pub struct PendingRequests {
    tokens: HashSet<usize>,
}

impl PendingRequests {
    /// The tokens that wait.
    pub closed spec fn waiting(&self) -> Set<usize> {
        self.tokens@
    }

    pub fn new() -> (r: PendingRequests)
        ensures
            r.waiting() == Set::<usize>::empty(),
    {
        PendingRequests { tokens: HashSet::new() }
    }

    /// Draws a token for a new request and records it as waiting.
    pub fn register(&mut self) -> (token: usize)
        ensures
            token < TOKEN_SPACE,
            final(self).waiting() == old(self).waiting().insert(token),
    {
        broadcast use group_hash_axioms;

        let token = random_below(TOKEN_SPACE);
        self.tokens.insert(token);
        token
    }

    /// Settles the request of `token`: true when it was waiting, which only
    /// the first of its response and its timeout sees.
    pub fn settle(&mut self, token: usize) -> (r: bool)
        ensures
            settled(*old(self), *final(self), token, r),
    {
        broadcast use group_hash_axioms;

        let r = self.tokens.remove(&token);
        proof {
            assert(self.waiting() =~= old(self).waiting().remove(token));
        }
        r
    }
}

/// A request is settled at most once: after one `settle` of its token
/// succeeds, a second one for the same token fails.
pub proof fn lemma_settled_once(
    first: PendingRequests,
    second: PendingRequests,
    token: usize,
    r: bool,
    third: PendingRequests,
    r2: bool,
)
    requires
        settled(first, second, token, r),
        settled(second, third, token, r2),
    ensures
        !r2,
{
}

} // verus!
