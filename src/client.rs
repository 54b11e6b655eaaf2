//! The client side: correlation ids, the table of pending requests, and what
//! becomes of each when a response arrives or the channel breaks.
use vstd::prelude::*;
use crate::frame::{encode_frame, frame_bytes};
use crate::message::{strings_view, Envelope, EnvelopeView, Outcome, Request, RequestView, Response, TransportErrorKind};
use crate::wire::{envelope_bytes, MAX_PAYLOAD};

verus! {

/// The answer handed to the caller waiting on request `id`.
#[derive(Clone, Copy, Debug, PartialEq, Eq, Structural)]
pub struct Resolution {
    pub id: u64,
    pub outcome: Outcome,
}

/// The multiplexer as values.
pub struct MuxView {
    /// The id the next request gets.
    pub next_id: u64,
    /// The ids still waiting for a response, in the order they were sent.
    pub pending: Seq<u64>,
    /// Whether the channel to the child still works.
    pub open: bool,
}

impl MuxView {
    /// No id waits twice, every waiting id was handed out, and a broken
    /// channel has nothing waiting.
    pub open spec fn wf(self) -> bool {
        &&& self.pending.no_duplicates()
        &&& forall|i: int| 0 <= i < self.pending.len() ==> #[trigger] self.pending[i] < self.next_id
        &&& !self.open ==> self.pending.len() == 0
    }
}

/// What breaking the channel resolves: every waiting request, in order, with
/// the backend reported unavailable.
pub open spec fn lost_resolutions(m: MuxView) -> Seq<Resolution> {
    if m.open {
        m.pending.map_values(
            |id: u64| Resolution { id, outcome: Outcome::Failed(TransportErrorKind::BackendUnavailable) },
        )
    } else {
        seq![]
    }
}

/// The multiplexer after the channel broke.
pub open spec fn after_lost(m: MuxView) -> MuxView {
    MuxView { next_id: m.next_id, pending: seq![], open: false }
}

/// The resolution that a response brings: its own id and its own outcome.
pub open spec fn resolution_of(resp: Response) -> Resolution {
    Resolution { id: resp.id, outcome: resp.outcome }
}

/// The multiplexer once the request at `i` of the waiting list is resolved.
pub open spec fn without_index(m: MuxView, i: int) -> MuxView {
    MuxView { next_id: m.next_id, pending: m.pending.remove(i), open: m.open }
}

/// The multiplexer once `id` is handed out and recorded as waiting.
pub open spec fn after_submit(m: MuxView) -> MuxView {
    MuxView { next_id: (m.next_id + 1) as u64, pending: m.pending.push(m.next_id), open: m.open }
}

/// The request that `submit` builds.
pub open spec fn request_view(
    id: u64,
    service: Seq<char>,
    user: Seq<char>,
    secret: Seq<char>,
    conversation: Seq<Seq<char>>,
) -> RequestView {
    RequestView { id, service, user, secret, conversation }
}

/// The parent's side of the channel: hands out correlation ids and matches
/// responses back to the requests that wait for them.
pub struct Multiplexer {
    next_id: u64,
    pending: Vec<u64>,
    open: bool,
}

impl View for Multiplexer {
    type V = MuxView;

    closed spec fn view(&self) -> MuxView {
        MuxView { next_id: self.next_id, pending: self.pending@, open: self.open }
    }
}

impl Multiplexer {
    /// A multiplexer over a fresh, working channel.
    pub fn new() -> (r: Multiplexer)
        ensures
            r@.wf(),
            r@.open,
            r@.pending.len() == 0,
            r@.next_id == 0,
    {
        let r = Multiplexer { next_id: 0, pending: Vec::new(), open: true };
        proof {
            assert(r@.pending =~= Seq::<u64>::empty());
        }
        r
    }

    /// Whether the channel still works.
    pub fn is_open(&self) -> (r: bool)
        ensures
            r == self@.open,
    {
        self.open
    }

    /// Number of requests waiting for a response.
    pub fn pending_count(&self) -> (r: usize)
        ensures
            r == self@.pending.len(),
    {
        self.pending.len()
    }

    /// Starts one authentication: gives it the next id, records it as
    /// waiting and returns that id with the frame to write. A broken channel
    /// gives `BackendUnavailable`, a request too large for a frame
    /// `FramingError`, and ids run out as `ChannelClosed`; none of them
    /// records anything.
    pub fn submit(
        &mut self,
        service: &str,
        user: &str,
        secret: &str,
        conversation: Vec<String>,
    ) -> (r: Result<(u64, Vec<u8>), TransportErrorKind>)
        requires
            old(self)@.wf(),
        ensures
            final(self)@.wf(),
            ({
                let m = old(self)@;
                let q = request_view(m.next_id, service@, user@, secret@, strings_view(conversation@));
                let bytes = envelope_bytes(EnvelopeView::Request(q));
                match r {
                    Ok((id, frame)) => m.open && m.next_id < u64::MAX && bytes.len() <= MAX_PAYLOAD
                        && id == m.next_id && frame@ == frame_bytes(bytes)
                        && !m.pending.contains(id) && final(self)@ == after_submit(m),
                    Err(k) => final(self)@ == m && if !m.open {
                        k == TransportErrorKind::BackendUnavailable
                    } else if m.next_id == u64::MAX {
                        k == TransportErrorKind::ChannelClosed
                    } else {
                        k == TransportErrorKind::FramingError && bytes.len() > MAX_PAYLOAD
                    },
                }
            }),
    {
        if !self.open {
            return Err(TransportErrorKind::BackendUnavailable);
        }
        if self.next_id == u64::MAX {
            return Err(TransportErrorKind::ChannelClosed);
        }
        let id = self.next_id;
        let q = Request {
            id,
            service: service.to_owned(),
            user: user.to_owned(),
            secret: secret.to_owned(),
            conversation,
        };
        let e = Envelope::Request(q);
        let frame = match encode_frame(&e) {
            Ok(f) => f,
            Err(k) => return Err(k),
        };
        proof {
            assert(!self.pending@.contains(id)) by {
                if self.pending@.contains(id) {
                    let i = choose|i: int| 0 <= i < self.pending@.len() && self.pending@[i] == id;
                    assert(self.pending@[i] < self.next_id);
                }
            }
        }
        self.pending.push(id);
        self.next_id = id + 1;
        assert(self@.pending =~= old(self)@.pending.push(id));
        proof {
            let p = self.pending@;
            assert forall|i: int, j: int| 0 <= i < p.len() && 0 <= j < p.len() && i != j implies p[i] != p[j] by {
                if i < p.len() - 1 && j < p.len() - 1 {
                    assert(old(self)@.pending[i] != old(self)@.pending[j]);
                } else if i == p.len() - 1 {
                    assert(old(self)@.pending.contains(p[j]) || j == p.len() - 1);
                } else {
                    assert(old(self)@.pending.contains(p[i]));
                }
            }
        }
        proof {
            let m = old(self)@;
            let qv = request_view(m.next_id, service@, user@, secret@, strings_view(conversation@));
            assert(e@ == EnvelopeView::Request(qv));
            assert(self@ == after_submit(m));
        }
        Ok((id, frame))
    }

    /// Matches a response to the request waiting under its id and resolves
    /// it with the response's own outcome. A response for no waiting id is
    /// ignored.
    pub fn resolve(&mut self, resp: Response) -> (r: Option<Resolution>)
        requires
            old(self)@.wf(),
        ensures
            final(self)@.wf(),
            (r is Some) <==> old(self)@.pending.contains(resp.id),
            r matches Some(x) ==> x == resolution_of(resp) && exists|i: int|
                0 <= i < old(self)@.pending.len() && old(self)@.pending[i] == resp.id
                    && final(self)@ == without_index(old(self)@, i),
            r is Some ==> !final(self)@.pending.contains(resp.id),
            (r is None) ==> (final(self)@ == old(self)@),
    {
        let mut i: usize = 0;
        while i < self.pending.len()
            invariant
                i <= self.pending@.len(),
                self@ == old(self)@,
                self@.wf(),
                forall|j: int| 0 <= j < i ==> self.pending@[j] != resp.id,
            decreases self.pending@.len() - i,
        {
            if self.pending[i] == resp.id {
                let ghost before = self.pending@;
                self.pending.remove(i);
                proof {
                    let p = self.pending@;
                    assert(p =~= before.remove(i as int));
                    assert forall|a: int, b: int| 0 <= a < p.len() && 0 <= b < p.len() && a != b implies p[a] != p[b] by {
                        let a2 = if a < i { a } else { a + 1 };
                        let b2 = if b < i { b } else { b + 1 };
                        assert(before[a2] != before[b2]);
                    }
                    assert forall|a: int| 0 <= a < p.len() implies #[trigger] p[a] < self.next_id by {
                        let a2 = if a < i { a } else { a + 1 };
                        assert(before[a2] < self.next_id);
                    }
                    assert(!p.contains(resp.id)) by {
                        if p.contains(resp.id) {
                            let a = choose|a: int| 0 <= a < p.len() && p[a] == resp.id;
                            let a2 = if a < i { a } else { a + 1 };
                            assert(before[a2] == before[i as int]);
                        }
                    }
                }
                assert(self@ == without_index(old(self)@, i as int));
                return Some(Resolution { id: resp.id, outcome: resp.outcome });
            }
            i = i + 1;
        }
        None
    }

    /// The channel broke: resolves every waiting request with
    /// `BackendUnavailable` and closes. Once closed, a second call resolves
    /// nothing.
    pub fn channel_lost(&mut self) -> (r: Vec<Resolution>)
        requires
            old(self)@.wf(),
        ensures
            final(self)@.wf(),
            r@ == lost_resolutions(old(self)@),
            final(self)@ == after_lost(old(self)@),
    {
        let mut out: Vec<Resolution> = Vec::new();
        if self.open {
            let mut i: usize = 0;
            while i < self.pending.len()
                invariant
                    i <= self.pending@.len(),
                    self.open,
                    out@ == lost_resolutions(self@).take(i as int),
                decreases self.pending@.len() - i,
            {
                out.push(
                    Resolution {
                        id: self.pending[i],
                        outcome: Outcome::Failed(TransportErrorKind::BackendUnavailable),
                    },
                );
                i = i + 1;
                assert(out@ =~= lost_resolutions(self@).take(i as int));
            }
            assert(out@ =~= lost_resolutions(self@));
        } else {
            assert(out@ =~= lost_resolutions(self@));
        }
        self.open = false;
        self.pending = Vec::new();
        assert(self@ =~= after_lost(old(self)@));
        out
    }
}

/// Breaking the channel resolves each waiting request exactly once, with a
/// transport error, and leaves nothing waiting.
pub proof fn lemma_lost_resolves_each_once(m: MuxView)
    requires
        m.wf(),
        m.open,
    ensures
        forall|id: u64|
            m.pending.contains(id) ==> exists|i: int|
                0 <= i < lost_resolutions(m).len() && #[trigger] lost_resolutions(m)[i].id == id,
        forall|i: int, j: int|
            0 <= i < lost_resolutions(m).len() && 0 <= j < lost_resolutions(m).len()
                && lost_resolutions(m)[i].id == lost_resolutions(m)[j].id ==> i == j,
        forall|i: int|
            0 <= i < lost_resolutions(m).len() ==> ((#[trigger] lost_resolutions(m)[i]).outcome
                is Failed),
        after_lost(m).wf(),
        after_lost(m).pending.len() == 0,
{
    let r = lost_resolutions(m);
    assert forall|id: u64| m.pending.contains(id) implies exists|i: int|
        0 <= i < r.len() && #[trigger] r[i].id == id by {
        let i = choose|i: int| 0 <= i < m.pending.len() && m.pending[i] == id;
        assert(r[i].id == id);
    }
}

/// Breaking an already broken channel changes nothing and resolves nothing,
/// so requests are failed once however many signals report the loss.
pub proof fn lemma_lost_idempotent(m: MuxView)
    ensures
        after_lost(after_lost(m)) == after_lost(m),
        lost_resolutions(after_lost(m)).len() == 0,
{
}

/// An id handed out is held by no waiting request, and stays unique among
/// them after it is recorded.
pub proof fn lemma_fresh_id_unique(m: MuxView)
    requires
        m.wf(),
        m.open,
        m.next_id < u64::MAX,
    ensures
        !m.pending.contains(m.next_id),
        after_submit(m).wf(),
{
    if m.pending.contains(m.next_id) {
        let i = choose|i: int| 0 <= i < m.pending.len() && m.pending[i] == m.next_id;
        assert(m.pending[i] < m.next_id);
    }
    let p = m.pending.push(m.next_id);
    assert forall|i: int, j: int| 0 <= i < p.len() && 0 <= j < p.len() && i != j implies p[i] != p[j] by {
        if i < p.len() - 1 && j < p.len() - 1 {
            assert(m.pending[i] != m.pending[j]);
        } else if i == p.len() - 1 {
            assert(m.pending[j] < m.next_id);
        } else {
            assert(m.pending[i] < m.next_id);
        }
    }
}

} // verus!
