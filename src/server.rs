//! The child side: which frames it accepts, how a worker's result becomes a
//! response, the stub engine, and the bound on work in flight.
use vstd::prelude::*;
use crate::frame::{encode_frame, envelopes_view, frame_bytes};
use crate::message::{AuthErrorKind, Envelope, EnvelopeView, Outcome, Request, Response};
use crate::supervisor::Config;
use crate::wire::response_bytes;

verus! {

/// The stub engine's rule: one fixed secret is accepted, any other is a
/// wrong credential.
pub open spec fn stub_outcome(secret: Seq<char>) -> Outcome {
    if secret == "correctpass"@ {
        Outcome::Granted
    } else {
        Outcome::Denied(AuthErrorKind::WrongCredential)
    }
}

/// The deterministic stand-in for the authentication engine.
pub fn stub_authenticate(secret: &String) -> (r: Outcome)
    ensures
        r == stub_outcome(secret@),
{
    let good: String = "correctpass".to_owned();
    if *secret == good {
        Outcome::Granted
    } else {
        Outcome::Denied(AuthErrorKind::WrongCredential)
    }
}

pub open spec fn engine_outcome(result: Result<(), AuthErrorKind>) -> Outcome {
    match result {
        Ok(()) => Outcome::Granted,
        Err(k) => Outcome::Denied(k),
    }
}

/// The response to `req` for what the engine reported: the request's own id
/// with the engine's status.
pub fn answer(req: &Request, result: Result<(), AuthErrorKind>) -> (r: Response)
    ensures
        r.id == req.id,
        r.outcome == engine_outcome(result),
{
    let outcome = match result {
        Ok(()) => Outcome::Granted,
        Err(k) => Outcome::Denied(k),
    };
    Response { id: req.id, outcome }
}

/// The response to `req` under the stub engine.
pub fn answer_with_stub(req: &Request) -> (r: Response)
    ensures
        r.id == req.id,
        r.outcome == stub_outcome(req.secret@),
{
    Response { id: req.id, outcome: stub_authenticate(&req.secret) }
}

/// In stub mode the stub engine answers `req` at once; otherwise `None`, and
/// the real engine is to be called.
pub fn stub_answer(config: &Config, req: &Request) -> (r: Option<Response>)
    ensures
        (r is Some) <==> config.stub_mode,
        r matches Some(x) ==> x.id == req.id && x.outcome == stub_outcome(req.secret@),
{
    if config.stub_mode {
        Some(answer_with_stub(req))
    } else {
        None
    }
}

/// The frame that carries `resp` back to the parent.
pub fn response_frame(resp: &Response) -> (r: Vec<u8>)
    ensures
        r@ == frame_bytes(response_bytes(*resp)),
{
    let e = Envelope::Response(*resp);
    match encode_frame(&e) {
        Ok(f) => f,
        Err(_) => {
            assert(response_bytes(*resp).len() <= 11);
            Vec::new()
        },
    }
}

/// The requests among what the child read, in order. A response sent to the
/// child breaks the protocol: `None`.
pub fn requests_of(es: Vec<Envelope>) -> (r: Option<Vec<Request>>)
    ensures
        r matches Some(rs) ==> rs@.len() == es@.len() && forall|i: int|
            0 <= i < es@.len() ==> envelopes_view(es@)[i] == EnvelopeView::Request(
                #[trigger] rs@[i]@,
            ),
        r is None <==> exists|i: int| 0 <= i < es@.len() && (#[trigger] es@[i] is Response),
{
    let mut rs: Vec<Request> = Vec::new();
    let mut rest = es;
    let ghost all = rest@;
    let mut i: usize = 0;
    let n = rest.len();
    while i < n
        invariant
            n == all.len(),
            all == es@,
            rest@.len() == n - i,
            i <= n,
            forall|j: int| 0 <= j < rest@.len() ==> rest@[j] == all[j + i],
            rs@.len() == i,
            forall|j: int|
                0 <= j < i ==> envelopes_view(all)[j] == EnvelopeView::Request(#[trigger] rs@[j]@),
        decreases n - i,
    {
        let e = rest.remove(0);
        match e {
            Envelope::Request(q) => {
                rs.push(q);
            },
            Envelope::Response(_) => {
                assert(all[i as int] is Response);
                return None;
            },
        }
        i = i + 1;
    }
    assert forall|j: int| 0 <= j < all.len() implies !(#[trigger] all[j] is Response) by {
        assert(envelopes_view(all)[j] == EnvelopeView::Request(rs@[j]@));
    }
    Some(rs)
}

/// How many requests the worker pool holds at once, and how many it holds now.
/// The read loop reads the next frame only while a slot is free.
pub struct WorkQueue {
    capacity: usize,
    in_flight: usize,
}

impl WorkQueue {
    pub closed spec fn capacity(&self) -> nat {
        self.capacity as nat
    }

    pub closed spec fn in_flight(&self) -> nat {
        self.in_flight as nat
    }

    pub open spec fn wf(&self) -> bool {
        0 < self.capacity() && self.in_flight() <= self.capacity()
    }

    /// A pool of `workers` slots, none taken; `None` for a pool of none.
    pub fn new(workers: usize) -> (r: Option<WorkQueue>)
        ensures
            (r is None) <==> (workers == 0),
            r matches Some(q) ==> q.wf() && q.capacity() == workers && q.in_flight() == 0,
    {
        if workers == 0 {
            None
        } else {
            Some(WorkQueue { capacity: workers, in_flight: 0 })
        }
    }

    /// Whether the read loop may read another request.
    pub fn may_read(&self) -> (r: bool)
        ensures
            r == (self.in_flight() < self.capacity()),
    {
        self.in_flight < self.capacity
    }

    /// Takes a slot for a request just read; `false`, and nothing taken,
    /// when all are busy.
    pub fn take_slot(&mut self) -> (r: bool)
        requires
            old(self).wf(),
        ensures
            final(self).wf(),
            final(self).capacity() == old(self).capacity(),
            r == (old(self).in_flight() < old(self).capacity()),
            r ==> final(self).in_flight() == old(self).in_flight() + 1,
            !r ==> final(self).in_flight() == old(self).in_flight(),
    {
        if self.in_flight < self.capacity {
            self.in_flight = self.in_flight + 1;
            true
        } else {
            false
        }
    }

    /// Frees the slot of a finished request; `false` when none was taken.
    pub fn finish(&mut self) -> (r: bool)
        requires
            old(self).wf(),
        ensures
            final(self).wf(),
            final(self).capacity() == old(self).capacity(),
            r == (old(self).in_flight() > 0),
            r ==> final(self).in_flight() == old(self).in_flight() - 1,
            !r ==> final(self).in_flight() == old(self).in_flight(),
    {
        if self.in_flight > 0 {
            self.in_flight = self.in_flight - 1;
            true
        } else {
            false
        }
    }
}

} // verus!
