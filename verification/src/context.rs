//! The context handle and the requests it makes of the backend.
//!
//! The backend allocates and frees the context data; a handle owns the token
//! that denotes it. Nothing here talks to the backend. A handle says which
//! request is due, the caller performs it and hands the answer back.
use crate::text::{decode_lossy, lossy_text};
use vstd::prelude::*;

verus! {

/// An identifier that the backend issued for one block of context data.
///
/// A token is a capability: it is handed back to the backend as it came and
/// is never interpreted here.
#[derive(Clone, Copy, Debug, PartialEq, Eq, Structural)]
pub struct Token {
    /// The number that the backend uses for this token.
    pub raw: usize,
}

/// Where a handle stands in its life. There is no way back from `Released`.
#[derive(Clone, Copy, Debug, PartialEq, Eq, Structural)]
pub enum Lifecycle {
    /// The handle owns `token`, which the backend has not released.
    Valid { token: Token },
    /// The release of the token has been requested; the handle owns nothing.
    Released,
}

/// What a handle asks of the backend.
#[derive(Clone, Copy, Debug, PartialEq, Eq, Structural)]
pub enum Request {
    /// Write a textual view of the context data behind `token` into a fresh
    /// buffer opened for `buffer_length` bytes.
    View { token: Token, buffer_length: usize },
    /// Free the context data behind `token`.
    Release { token: Token },
}

/// Why no handle came out of an allocation.
#[derive(Clone, Copy, Debug, PartialEq, Eq, Structural)]
pub enum BackendFault {
    /// The backend reported failure, with this status.
    Failed { status: i32 },
    /// The backend reported success and issued no token.
    NoToken,
}

/// The request that renders a handle in `state`.
pub open spec fn view_request_of(state: Lifecycle, buffer_length: usize) -> Request
    recommends
        state is Valid,
{
    Request::View { token: state->token, buffer_length }
}

/// The request that the end of a handle in `state` calls for: one release of
/// its token while it is valid, and nothing once it is released.
pub open spec fn release_request_of(state: Lifecycle) -> Option<Request> {
    match state {
        Lifecycle::Valid { token } => Some(Request::Release { token }),
        Lifecycle::Released => None,
    }
}

/// The one owner of a token.
///
/// A handle comes out of [`QFunctionContext::create`] alone and cannot be
/// copied, so no two handles own the same token unless the backend issued it
/// twice.
#[derive(Debug)]
pub struct QFunctionContext {
    state: Lifecycle,
}

impl View for QFunctionContext {
    type V = Lifecycle;

    closed spec fn view(&self) -> Lifecycle {
        self.state
    }
}

impl QFunctionContext {
    /// True while the handle owns a token.
    pub open spec fn is_valid(&self) -> bool {
        self@ is Valid
    }

    /// Makes a handle out of the backend's answer to an allocation request:
    /// its status, zero for success, and the number of the token it issued,
    /// zero for none.
    ///
    /// A handle comes out exactly when the backend reported success and
    /// issued a token; the handle then owns that token. In every other case
    /// no handle exists, and so nothing is ever released.
    pub fn create(status: i32, raw: usize) -> (made: Result<QFunctionContext, BackendFault>)
        ensures
            status == 0 && raw != 0 ==> made is Ok && made->Ok_0@ == (Lifecycle::Valid {
                token: Token { raw },
            }),
            status != 0 ==> made == Err::<QFunctionContext, BackendFault>(
                BackendFault::Failed { status },
            ),
            status == 0 && raw == 0 ==> made == Err::<QFunctionContext, BackendFault>(
                BackendFault::NoToken,
            ),
    {
        if status != 0 {
            Err(BackendFault::Failed { status })
        } else if raw == 0 {
            Err(BackendFault::NoToken)
        } else {
            Ok(QFunctionContext { state: Lifecycle::Valid { token: Token { raw } } })
        }
    }

    /// Where the handle stands. A released handle shows no token.
    pub fn state(&self) -> (state: Lifecycle)
        ensures
            state == self@,
    {
        self.state
    }

    /// The request to make of the backend before [`QFunctionContext::render`]:
    /// a view of this handle's token, into a buffer opened for
    /// `buffer_length` bytes, the limit that the whole process shares.
    pub fn view_request(&self, buffer_length: usize) -> (request: Request)
        requires
            self.is_valid(),
        ensures
            request == view_request_of(self@, buffer_length),
    {
        match self.state {
            Lifecycle::Valid { token } => Request::View { token, buffer_length },
            Lifecycle::Released => unreached(),
        }
    }

    /// The snapshot: the text of what the backend wrote into the capture
    /// buffer.
    ///
    /// The text is that of `captured` and of nothing else, bytes that are not
    /// text replaced as [`lossy_text`] says. The string owns its memory, so
    /// the buffer can be freed as soon as this returns, and the handle is
    /// left as it was.
    pub fn render(&self, captured: &[u8]) -> (text: String)
        requires
            self.is_valid(),
        ensures
            text@ == lossy_text(captured@),
    {
        decode_lossy(captured)
    }

    /// Ends the handle's ownership. While the handle is valid this returns
    /// the one release request for its token; on a released handle it
    /// returns nothing. Either way the handle is released afterwards.
    pub fn release(&mut self) -> (request: Option<Request>)
        ensures
            request == release_request_of(old(self)@),
            final(self)@ == Lifecycle::Released,
    {
        let request = match self.state {
            Lifecycle::Valid { token } => Some(Request::Release { token }),
            Lifecycle::Released => None,
        };
        self.state = Lifecycle::Released;
        request
    }
}

} // verus!
