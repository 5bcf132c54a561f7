//! The life of a handle as the sequence of its uses, and what the backend
//! sees of it.
//!
//! A handle is used by rendering it and by releasing it. This module says
//! which requests a whole life presents to the backend, and proves that a
//! token is released exactly once however the handle was used.
use crate::context::{release_request_of, view_request_of, Lifecycle, Request, Token};
use vstd::prelude::*;

verus! {

/// One thing that the owner of a handle does with it.
pub enum Use {
    /// Takes a snapshot, with this buffer length.
    Render { buffer_length: usize },
    /// Lets go of the handle: the end of the owning scope, on whatever path
    /// it was reached, or a release by hand.
    Release,
}

/// Whether a handle in `state` may be used so. Rendering needs a valid
/// handle; letting go is in order in every state.
pub open spec fn permitted(state: Lifecycle, u: Use) -> bool {
    u is Render ==> state is Valid
}

/// The state of a handle after one use.
pub open spec fn state_after(state: Lifecycle, u: Use) -> Lifecycle {
    match u {
        Use::Render { .. } => state,
        Use::Release => Lifecycle::Released,
    }
}

/// The requests that one permitted use presents to the backend.
pub open spec fn requests_of(state: Lifecycle, u: Use) -> Seq<Request>
    recommends
        permitted(state, u),
{
    match u {
        Use::Render { buffer_length } => seq![view_request_of(state, buffer_length)],
        Use::Release => match release_request_of(state) {
            Some(request) => seq![request],
            None => Seq::empty(),
        },
    }
}

/// Whether each of `uses`, in this order, is permitted when its turn comes.
pub open spec fn all_permitted(state: Lifecycle, uses: Seq<Use>) -> bool
    decreases uses.len(),
{
    uses.len() > 0 ==> permitted(state, uses[0]) && all_permitted(
        state_after(state, uses[0]),
        uses.drop_first(),
    )
}

/// The state of a handle after `uses`.
pub open spec fn final_state(state: Lifecycle, uses: Seq<Use>) -> Lifecycle
    decreases uses.len(),
{
    if uses.len() == 0 {
        state
    } else {
        final_state(state_after(state, uses[0]), uses.drop_first())
    }
}

/// Everything that `uses` present to the backend, in order.
pub open spec fn trace(state: Lifecycle, uses: Seq<Use>) -> Seq<Request>
    recommends
        all_permitted(state, uses),
    decreases uses.len(),
{
    if uses.len() == 0 {
        Seq::empty()
    } else {
        requests_of(state, uses[0]) + trace(state_after(state, uses[0]), uses.drop_first())
    }
}

/// The token that a request presents to the backend.
pub open spec fn token_of(request: Request) -> Token {
    match request {
        Request::View { token, .. } => token,
        Request::Release { token } => token,
    }
}

/// How many of `requests` ask for the release of `token`.
pub open spec fn releases_of(requests: Seq<Request>, token: Token) -> nat
    decreases requests.len(),
{
    if requests.len() == 0 {
        0
    } else {
        let here: nat = if requests[0] == (Request::Release { token }) {
            1
        } else {
            0
        };
        here + releases_of(requests.drop_first(), token)
    }
}

/// There is no way back from `Released`: whatever is done with a released
/// handle, it stays released.
pub proof fn lemma_released_is_final(uses: Seq<Use>)
    ensures
        final_state(Lifecycle::Released, uses) == Lifecycle::Released,
    decreases uses.len(),
{
    if uses.len() > 0 {
        lemma_released_is_final(uses.drop_first());
    }
}

/// A released handle presents nothing to the backend, however often it is
/// let go of again: its token is never seen there a second time.
pub proof fn lemma_nothing_after_release(uses: Seq<Use>)
    requires
        all_permitted(Lifecycle::Released, uses),
    ensures
        trace(Lifecycle::Released, uses) == Seq::<Request>::empty(),
    decreases uses.len(),
{
    if uses.len() > 0 {
        lemma_nothing_after_release(uses.drop_first());
        assert(trace(Lifecycle::Released, uses) =~= Seq::<Request>::empty());
    }
}

/// Rendering leaves the handle as it was: after any number of renders it is
/// as valid as before, owns the same token, and the backend has seen one
/// view request for that token per render and no release.
pub proof fn lemma_renders_keep_the_handle(token: Token, uses: Seq<Use>)
    requires
        forall|i: int| 0 <= i < uses.len() ==> uses[i] is Render,
    ensures
        all_permitted(Lifecycle::Valid { token }, uses),
        final_state(Lifecycle::Valid { token }, uses) == (Lifecycle::Valid { token }),
        trace(Lifecycle::Valid { token }, uses).len() == uses.len(),
        forall|i: int|
            0 <= i < uses.len() ==> #[trigger] trace(Lifecycle::Valid { token }, uses)[i] == (
            Request::View { token, buffer_length: uses[i]->buffer_length }),
        releases_of(trace(Lifecycle::Valid { token }, uses), token) == 0,
    decreases uses.len(),
{
    let state = Lifecycle::Valid { token };
    if uses.len() > 0 {
        let rest = uses.drop_first();
        lemma_renders_keep_the_handle(token, rest);
        let whole = trace(state, uses);
        assert(whole =~= seq![view_request_of(state, uses[0]->buffer_length)] + trace(state, rest));
        assert(whole[0] == view_request_of(state, uses[0]->buffer_length));
        assert(whole.drop_first() =~= trace(state, rest));
        assert forall|i: int| 0 <= i < uses.len() implies #[trigger] whole[i] == (Request::View {
            token,
            buffer_length: uses[i]->buffer_length,
        }) by {
            if i > 0 {
                assert(whole[i] == trace(state, rest)[i - 1]);
                assert(rest[i - 1] == uses[i]);
            }
        }
    }
}

/// The token of a handle is released exactly once in its life.
///
/// Whatever was done with a valid handle, rendered never, once or often, and
/// let go of once or more than once: when it has been let go of, the backend
/// has seen one release request for its token, no more and no fewer, and no
/// request for any other token.
pub proof fn lemma_released_exactly_once(token: Token, uses: Seq<Use>)
    requires
        all_permitted(Lifecycle::Valid { token }, uses),
        exists|i: int| 0 <= i < uses.len() && uses[i] is Release,
    ensures
        releases_of(trace(Lifecycle::Valid { token }, uses), token) == 1,
        final_state(Lifecycle::Valid { token }, uses) == Lifecycle::Released,
        forall|k: int|
            0 <= k < trace(Lifecycle::Valid { token }, uses).len() ==> token_of(
                #[trigger] trace(Lifecycle::Valid { token }, uses)[k],
            ) == token,
    decreases uses.len(),
{
    let state = Lifecycle::Valid { token };
    let whole = trace(state, uses);
    let rest = uses.drop_first();
    let i = choose|i: int| 0 <= i < uses.len() && uses[i] is Release;
    if uses[0] is Release {
        lemma_nothing_after_release(rest);
        lemma_released_is_final(rest);
        assert(whole =~= seq![Request::Release { token }]);
        assert(whole.drop_first() =~= Seq::<Request>::empty());
        assert(releases_of(whole.drop_first(), token) == 0);
    } else {
        assert(rest[i - 1] is Release);
        lemma_released_exactly_once(token, rest);
        let first = view_request_of(state, uses[0]->buffer_length);
        assert(whole =~= seq![first] + trace(state, rest));
        assert(whole[0] == first);
        assert(whole.drop_first() =~= trace(state, rest));
        assert forall|k: int| 0 <= k < whole.len() implies token_of(#[trigger] whole[k])
            == token by {
            if k > 0 {
                assert(whole[k] == trace(state, rest)[k - 1]);
            }
        }
    }
}

/// Once a handle has been let go of, nothing that is done with it later
/// reaches the backend: the requests of the whole life are those up to the
/// release.
pub proof fn lemma_life_ends_at_release(state: Lifecycle, before: Seq<Use>, after: Seq<Use>)
    requires
        all_permitted(state, before + after),
        final_state(state, before) == Lifecycle::Released,
    ensures
        trace(state, before + after) == trace(state, before),
        final_state(state, before + after) == Lifecycle::Released,
    decreases before.len(),
{
    if before.len() == 0 {
        assert(before + after =~= after);
        lemma_nothing_after_release(after);
        lemma_released_is_final(after);
    } else {
        assert((before + after).drop_first() =~= before.drop_first() + after);
        lemma_life_ends_at_release(state_after(state, before[0]), before.drop_first(), after);
    }
}

} // verus!
