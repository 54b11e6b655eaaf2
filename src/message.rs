//! The messages that cross the process boundary, and their error kinds.
use vstd::prelude::*;

verus! {

/// What the authentication engine reports when it refuses a user.
#[derive(Clone, Copy, Debug, PartialEq, Eq, Structural)]
pub enum AuthErrorKind {
    WrongCredential,
    AccountExpired,
    CredentialExpired,
    PermissionDenied,
    UserUnknown,
    TooManyAttempts,
    Aborted,
    UnknownFailure,
}

/// Failures of the channel or of the child process rather than of the user.
#[derive(Clone, Copy, Debug, PartialEq, Eq, Structural)]
pub enum TransportErrorKind {
    ChannelClosed,
    FramingError,
    ProcessSpawnFailed,
    BackendCrashed,
    BackendUnavailable,
}

/// The error a caller of `auth` receives.
#[derive(Clone, Copy, Debug, PartialEq, Eq, Structural)]
pub enum AuthError {
    Auth(AuthErrorKind),
    Transport(TransportErrorKind),
}

/// The result carried by a response.
#[derive(Clone, Copy, Debug, PartialEq, Eq, Structural)]
pub enum Outcome {
    Granted,
    Denied(AuthErrorKind),
    Failed(TransportErrorKind),
}

impl Outcome {
    /// The outcome as the caller sees it.
    pub fn into_result(self) -> (r: Result<(), AuthError>)
        ensures
            r == outcome_result(self),
    {
        match self {
            Outcome::Granted => Ok(()),
            Outcome::Denied(k) => Err(AuthError::Auth(k)),
            Outcome::Failed(k) => Err(AuthError::Transport(k)),
        }
    }
}

pub open spec fn outcome_result(o: Outcome) -> Result<(), AuthError> {
    match o {
        Outcome::Granted => Ok(()),
        Outcome::Denied(k) => Err(AuthError::Auth(k)),
        Outcome::Failed(k) => Err(AuthError::Transport(k)),
    }
}

/// One authentication request, tagged with its correlation id.
#[derive(Clone, Debug)]
pub struct Request {
    pub id: u64,
    pub service: String,
    pub user: String,
    pub secret: String,
    pub conversation: Vec<String>,
}

/// The answer to the request with the same id.
#[derive(Clone, Copy, Debug, PartialEq, Eq, Structural)]
pub struct Response {
    pub id: u64,
    pub outcome: Outcome,
}

/// What travels in one frame.
#[derive(Clone, Debug)]
pub enum Envelope {
    Request(Request),
    Response(Response),
}

/// A request as values: its strings as character sequences.
pub struct RequestView {
    pub id: u64,
    pub service: Seq<char>,
    pub user: Seq<char>,
    pub secret: Seq<char>,
    pub conversation: Seq<Seq<char>>,
}

/// An envelope as values.
pub enum EnvelopeView {
    Request(RequestView),
    Response(Response),
}

/// Each string as its characters.
pub open spec fn strings_view(v: Seq<String>) -> Seq<Seq<char>> {
    v.map_values(|s: String| s@)
}

impl View for Request {
    type V = RequestView;

    open spec fn view(&self) -> RequestView {
        RequestView {
            id: self.id,
            service: self.service@,
            user: self.user@,
            secret: self.secret@,
            conversation: strings_view(self.conversation@),
        }
    }
}

impl View for Envelope {
    type V = EnvelopeView;

    open spec fn view(&self) -> EnvelopeView {
        match self {
            Envelope::Request(r) => EnvelopeView::Request(r@),
            Envelope::Response(r) => EnvelopeView::Response(*r),
        }
    }
}

} // verus!
