//! The destination session an attempt shares, until it is closed.

use crate::error::{Error, ErrorKind};
use vstd::prelude::*;
use vstd::string::*;

verus! {

/// The destination session, shared by commits and schema changes until it is closed.
#[derive(Debug)]
pub struct SharedSession<S> {
    session: Option<S>,
}

impl<S> SharedSession<S> {
    /// The session, while it is open.
    pub closed spec fn view(&self) -> Option<S> {
        self.session
    }

    /// An open session.
    pub fn new(session: S) -> (shared: SharedSession<S>)
        ensures
            shared@ == Some(session),
    {
        SharedSession { session: Some(session) }
    }

    /// The session, for a call through it, or the error for one that is closed.
    pub fn get(&mut self) -> (session: Result<&mut S, Error>)
        ensures
            match session {
                Ok(session) => old(self)@ == Some(*session) && final(self)@ == Some(
                    *final(session),
                ),
                Err(error) => old(self)@ is None && final(self)@ is None && is_closed(error),
            },
    {
        match &mut self.session {
            Some(session) => Ok(session),
            None => Err(closed()),
        }
    }

    /// Closes the session and hands it out; later calls find it closed.
    pub fn close(&mut self) -> (session: Option<S>)
        ensures
            session == old(self)@,
            final(self)@ is None,
    {
        let mut session: Option<S> = None;
        std::mem::swap(&mut session, &mut self.session);
        session
    }
}

/// Whether `error` is the one for a closed session: an error of the engine itself, which used the
/// session after closing it.
pub open spec fn is_closed(error: Error) -> bool {
    &&& error.kind == ErrorKind::Internal
    &&& error.code is None
    &&& error.message@ == "the destination session is already closed"@
}

/// The error for a closed session.
pub fn closed() -> (error: Error)
    ensures
        is_closed(error),
{
    Error {
        kind: ErrorKind::Internal,
        code: None,
        message: "the destination session is already closed".to_string(),
    }
}

} // verus!
