//! The framed channel: each envelope travels as its length, a big-endian
//! `u32`, followed by its bytes.
use vstd::prelude::*;
use crate::bytes::{be32, lemma_be32_injective, push_u32, read_u32};
use crate::message::{Envelope, EnvelopeView, TransportErrorKind};
use crate::wire::{decode_envelope, encode_envelope, envelope_bytes, envelope_fits, is_at, lemma_envelope_round_trip, lemma_is_at_split, MAX_PAYLOAD};

verus! {

pub open spec fn frame_bytes(payload: Seq<u8>) -> Seq<u8> {
    be32(payload.len() as u32) + payload
}

pub open spec fn frames_bytes(es: Seq<EnvelopeView>) -> Seq<u8>
    decreases es.len(),
{
    if es.len() == 0 {
        seq![]
    } else {
        frames_bytes(es.drop_last()) + frame_bytes(envelope_bytes(es.last()))
    }
}

pub open spec fn envelopes_view(v: Seq<Envelope>) -> Seq<EnvelopeView> {
    v.map_values(|e: Envelope| e@)
}

/// Every envelope fits the format and within one frame.
pub open spec fn all_framable(es: Seq<EnvelopeView>) -> bool {
    forall|i: int|
        0 <= i < es.len() ==> envelope_fits(#[trigger] es[i]) && envelope_bytes(es[i]).len()
            <= MAX_PAYLOAD
}

/// What stands at `pos` is the beginning of a frame that has not fully
/// arrived: not all of its length, or a sane length and not all of its bytes.
pub open spec fn partial_at(buf: Seq<u8>, pos: int) -> bool {
    pos + 4 > buf.len() || forall|n: u32|
        is_at(buf, pos, #[trigger] be32(n)) ==> n <= MAX_PAYLOAD && pos + 4 + n > buf.len()
}

/// At `pos` stands a length over the limit, or a complete frame whose bytes
/// are no envelope.
pub open spec fn bad_at(buf: Seq<u8>, pos: int) -> bool {
    pos + 4 <= buf.len() && forall|n: u32|
        is_at(buf, pos, #[trigger] be32(n)) ==> (n > MAX_PAYLOAD || (pos + 4 + n <= buf.len()
            && forall|w: EnvelopeView|
            envelope_fits(w) ==> #[trigger] envelope_bytes(w) != buf.subrange(pos + 4, pos + 4 + n)))
}

/// Encodes one envelope as a frame; a `FramingError` when it is too large.
pub fn encode_frame(e: &Envelope) -> (res: Result<Vec<u8>, TransportErrorKind>)
    ensures
        match res {
            Ok(v) => v@ == frame_bytes(envelope_bytes(e@)) && envelope_fits(e@) && envelope_bytes(
                e@,
            ).len() <= MAX_PAYLOAD,
            Err(k) => k == TransportErrorKind::FramingError && envelope_bytes(e@).len()
                > MAX_PAYLOAD,
        },
{
    let payload = match encode_envelope(e) {
        Ok(p) => p,
        Err(k) => return Err(k),
    };
    let mut out: Vec<u8> = Vec::new();
    push_u32(&mut out, payload.len() as u32);
    let ghost head = out@;
    let mut i: usize = 0;
    while i < payload.len()
        invariant
            i <= payload@.len(),
            out@ == head + payload@.subrange(0, i as int),
        decreases payload@.len() - i,
    {
        out.push(payload[i]);
        i = i + 1;
        assert(out@ =~= head + payload@.subrange(0, i as int));
    }
    assert(payload@.subrange(0, payload@.len() as int) =~= payload@);
    Ok(out)
}

/// Decodes every complete frame in `buf`, in order, and says how many bytes
/// they took; what is left is the start of a frame still to come. A length
/// over the limit or a payload that is no envelope is a `FramingError`.
pub fn split_frames(buf: &[u8]) -> (res: Result<(Vec<Envelope>, usize), TransportErrorKind>)
    ensures
        match res {
            Ok((es, used)) => used <= buf@.len() && buf@.subrange(0, used as int) == frames_bytes(
                envelopes_view(es@),
            ) && all_framable(envelopes_view(es@)) && partial_at(buf@, used as int),
            Err(k) => k == TransportErrorKind::FramingError && exists|es: Seq<EnvelopeView>|
                all_framable(es) && is_at(buf@, 0, #[trigger] frames_bytes(es)) && bad_at(
                    buf@,
                    frames_bytes(es).len() as int,
                ),
        },
{
    let mut es: Vec<Envelope> = Vec::new();
    let mut pos: usize = 0;
    assert(buf@.subrange(0, 0) =~= Seq::<u8>::empty());
    assert(envelopes_view(es@) =~= Seq::<EnvelopeView>::empty());
    loop
        invariant
            pos <= buf@.len(),
            buf@.subrange(0, pos as int) == frames_bytes(envelopes_view(es@)),
            all_framable(envelopes_view(es@)),
        decreases buf@.len() - pos,
    {
        let ghost cur = envelopes_view(es@);
        let (n, p) = match read_u32(buf, pos) {
            Some(x) => x,
            None => return Ok((es, pos)),
        };
        let n = n as usize;
        if n > MAX_PAYLOAD {
            proof {
                assert forall|m: u32| is_at(buf@, pos as int, #[trigger] be32(m)) implies m > MAX_PAYLOAD by {
                    lemma_be32_injective(m, n as u32);
                }
                assert(is_at(buf@, 0, frames_bytes(cur)));
            }
            return Err(TransportErrorKind::FramingError);
        }
        if buf.len() - p < n {
            proof {
                assert forall|m: u32| is_at(buf@, pos as int, #[trigger] be32(m)) implies m <= MAX_PAYLOAD && pos + 4 + m > buf@.len() by {
                    lemma_be32_injective(m, n as u32);
                }
            }
            return Ok((es, pos));
        }
        let slice = vstd::slice::slice_subrange(buf, p, p + n);
        match decode_envelope(slice) {
            Some(e) => {
                proof {
                    assert(buf@.subrange(p as int, (p + n) as int) == envelope_bytes(e@));
                    assert(buf@.subrange(0, (p + n) as int) =~= buf@.subrange(0, pos as int)
                        + buf@.subrange(pos as int, p as int) + buf@.subrange(p as int, (p + n) as int));
                }
                es.push(e);
                proof {
                    let now = envelopes_view(es@);
                    assert(now =~= cur.push(e@));
                    assert(now.drop_last() =~= cur);
                    assert(frames_bytes(now) =~= frames_bytes(cur) + frame_bytes(envelope_bytes(e@)));
                }
                pos = p + n;
            },
            None => {
                proof {
                    assert forall|m: u32| is_at(buf@, pos as int, #[trigger] be32(m)) implies (m > MAX_PAYLOAD || (pos + 4 + m <= buf@.len()
                        && forall|w: EnvelopeView| envelope_fits(w) ==> #[trigger] envelope_bytes(w) != buf@.subrange(pos + 4, pos + 4 + m))) by {
                        lemma_be32_injective(m, n as u32);
                    }
                    assert(is_at(buf@, 0, frames_bytes(cur)));
                }
                return Err(TransportErrorKind::FramingError);
            },
        }
    }
}

/// The frames of the first `j` envelopes stand where those of all do.
pub proof fn lemma_frames_prefix(b: Seq<u8>, pos: int, es: Seq<EnvelopeView>, j: int)
    requires
        0 <= j <= es.len(),
        is_at(b, pos, frames_bytes(es)),
    ensures
        is_at(b, pos, frames_bytes(es.take(j))),
    decreases es.len(),
{
    if j == es.len() {
        assert(es.take(j) =~= es);
    } else {
        lemma_is_at_split(b, pos, frames_bytes(es.drop_last()), frame_bytes(envelope_bytes(es.last())));
        lemma_frames_prefix(b, pos, es.drop_last(), j);
        assert(es.drop_last().take(j) =~= es.take(j));
    }
}

proof fn lemma_frame_unique(b: Seq<u8>, pos: int, x: EnvelopeView, y: EnvelopeView)
    requires
        envelope_fits(x),
        envelope_fits(y),
        envelope_bytes(x).len() <= MAX_PAYLOAD,
        envelope_bytes(y).len() <= MAX_PAYLOAD,
        is_at(b, pos, frame_bytes(envelope_bytes(x))),
        is_at(b, pos, frame_bytes(envelope_bytes(y))),
    ensures
        x == y,
{
    let (px, py) = (envelope_bytes(x), envelope_bytes(y));
    lemma_is_at_split(b, pos, be32(px.len() as u32), px);
    lemma_is_at_split(b, pos, be32(py.len() as u32), py);
    lemma_be32_injective(px.len() as u32, py.len() as u32);
    lemma_envelope_round_trip(x, y);
}

proof fn lemma_frames_unique(b: Seq<u8>, pos: int, xs: Seq<EnvelopeView>, ys: Seq<EnvelopeView>)
    requires
        xs.len() == ys.len(),
        all_framable(xs),
        all_framable(ys),
        is_at(b, pos, frames_bytes(xs)),
        is_at(b, pos, frames_bytes(ys)),
    ensures
        xs == ys,
    decreases xs.len(),
{
    if xs.len() > 0 {
        let (dx, dy) = (xs.drop_last(), ys.drop_last());
        lemma_is_at_split(b, pos, frames_bytes(dx), frame_bytes(envelope_bytes(xs.last())));
        lemma_is_at_split(b, pos, frames_bytes(dy), frame_bytes(envelope_bytes(ys.last())));
        assert(all_framable(dx) && all_framable(dy));
        lemma_frames_unique(b, pos, dx, dy);
        lemma_frame_unique(b, pos + frames_bytes(dx).len(), xs.last(), ys.last());
        assert(xs =~= dx.push(xs.last()));
        assert(ys =~= dy.push(ys.last()));
    } else {
        assert(xs =~= ys);
    }
}

/// Where the frames of `es` stand at 0 of `b`, those of `others` too, and
/// `others` is no longer, it is the first of `es`; the frame of the next
/// envelope of `es`, if any, follows it.
proof fn lemma_frames_common(b: Seq<u8>, es: Seq<EnvelopeView>, others: Seq<EnvelopeView>)
    requires
        all_framable(es),
        all_framable(others),
        b == frames_bytes(es),
        is_at(b, 0, frames_bytes(others)),
    ensures
        others.len() <= es.len(),
        others == es.take(others.len() as int),
        others.len() < es.len() ==> is_at(
            b,
            frames_bytes(others).len() as int,
            frame_bytes(envelope_bytes(es[others.len() as int])),
        ),
{
    assert(b.subrange(0, b.len() as int) =~= b);
    if others.len() > es.len() {
        let k = es.len() as int;
        lemma_frames_prefix(b, 0, others, k);
        assert(all_framable(others.take(k)));
        lemma_frames_unique(b, 0, others.take(k), es);
        lemma_frames_prefix(b, 0, others, k + 1);
        assert(others.take(k + 1).drop_last() =~= others.take(k));
        assert(frames_bytes(others.take(k + 1)).len() > frames_bytes(others.take(k)).len());
    } else {
        let k = others.len() as int;
        lemma_frames_prefix(b, 0, es, k);
        assert(all_framable(es.take(k)));
        lemma_frames_unique(b, 0, others, es.take(k));
        if k < es.len() {
            lemma_frames_prefix(b, 0, es, k + 1);
            assert(es.take(k + 1).drop_last() =~= es.take(k));
            lemma_is_at_split(b, 0, frames_bytes(es.take(k)), frame_bytes(envelope_bytes(es[k])));
        }
    }
}

/// Frames written one after another read back as exactly those envelopes, in
/// order, with every byte used: what `split_frames` returns for their
/// concatenation can only be all of them.
pub proof fn lemma_frames_read_back(es: Seq<EnvelopeView>, got: Seq<EnvelopeView>, used: int)
    requires
        all_framable(es),
        all_framable(got),
        0 <= used <= frames_bytes(es).len(),
        frames_bytes(es).subrange(0, used) == frames_bytes(got),
        partial_at(frames_bytes(es), used),
    ensures
        got == es,
        used == frames_bytes(es).len(),
{
    let b = frames_bytes(es);
    lemma_frames_common(b, es, got);
    if got.len() < es.len() {
        let x = envelope_bytes(es[got.len() as int]);
        lemma_is_at_split(b, used, be32(x.len() as u32), x);
        assert(is_at(b, used, be32(x.len() as u32)));
    } else {
        assert(es.take(es.len() as int) =~= es);
    }
}

/// Nowhere in frames written one after another does `split_frames` find a
/// bad frame, so it never fails on them.
pub proof fn lemma_frames_never_bad(es: Seq<EnvelopeView>, others: Seq<EnvelopeView>)
    requires
        all_framable(es),
        all_framable(others),
        is_at(frames_bytes(es), 0, frames_bytes(others)),
    ensures
        !bad_at(frames_bytes(es), frames_bytes(others).len() as int),
{
    let b = frames_bytes(es);
    lemma_frames_common(b, es, others);
    let pos = frames_bytes(others).len() as int;
    if others.len() < es.len() {
        let w = es[others.len() as int];
        let x = envelope_bytes(w);
        lemma_is_at_split(b, pos, be32(x.len() as u32), x);
        assert(is_at(b, pos, be32(x.len() as u32)));
        assert(b.subrange(pos + 4, pos + 4 + (x.len() as u32)) == x);
    } else {
        assert(es.take(es.len() as int) =~= es);
    }
}

} // verus!
