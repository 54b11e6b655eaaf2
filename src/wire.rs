//! The envelope format: a tag byte, then the fields in order. Integers are
//! big-endian; a string is its UTF-8 byte count as a `u32`, then the bytes; a
//! list of strings is its count as a `u32`, then each string.
use vstd::prelude::*;
use vstd::utf8::{encode_utf8, valid_utf8, encode_utf8_decode_utf8, encode_utf8_valid_utf8};
use crate::bytes::{be32, be64, lemma_be32_injective, lemma_be64_injective, push_u32, push_u64, read_u32, read_u64};
use crate::message::{strings_view, AuthErrorKind, Envelope, EnvelopeView, Outcome, Request, RequestView, Response, TransportErrorKind};

verus! {

/// The largest envelope the channel carries, in bytes.
pub const MAX_PAYLOAD: usize = 1048576;

pub const TAG_REQUEST: u8 = 0;

pub const TAG_RESPONSE: u8 = 1;

/// `x` stands in `b` from `pos` on.
pub open spec fn is_at(b: Seq<u8>, pos: int, x: Seq<u8>) -> bool {
    0 <= pos && pos + x.len() <= b.len() && b.subrange(pos, pos + x.len()) == x
}

pub open spec fn str_fits(s: Seq<char>) -> bool {
    encode_utf8(s).len() <= u32::MAX
}

pub open spec fn str_bytes(s: Seq<char>) -> Seq<u8> {
    be32(encode_utf8(s).len() as u32) + encode_utf8(s)
}

pub open spec fn strs_bytes(ss: Seq<Seq<char>>) -> Seq<u8>
    decreases ss.len(),
{
    if ss.len() == 0 {
        seq![]
    } else {
        strs_bytes(ss.drop_last()) + str_bytes(ss.last())
    }
}

pub proof fn lemma_is_at_split(b: Seq<u8>, pos: int, x: Seq<u8>, y: Seq<u8>)
    requires
        is_at(b, pos, x + y),
    ensures
        is_at(b, pos, x),
        is_at(b, pos + x.len(), y),
{
    let w = b.subrange(pos, pos + x.len() + y.len());
    assert(w == x + y);
    assert(b.subrange(pos, pos + x.len()) =~= w.subrange(0, x.len() as int));
    assert(w.subrange(0, x.len() as int) =~= x);
    assert(b.subrange(pos + x.len(), pos + x.len() + y.len()) =~= w.subrange(
        x.len() as int,
        w.len() as int,
    ));
    assert(w.subrange(x.len() as int, w.len() as int) =~= y);
}

/// Two fitting strings encoded at the same place are the same string.
pub proof fn lemma_str_unique(b: Seq<u8>, pos: int, s: Seq<char>, t: Seq<char>)
    requires
        str_fits(s),
        str_fits(t),
        is_at(b, pos, str_bytes(s)),
        is_at(b, pos, str_bytes(t)),
    ensures
        s == t,
{
    lemma_is_at_split(b, pos, be32(encode_utf8(s).len() as u32), encode_utf8(s));
    lemma_is_at_split(b, pos, be32(encode_utf8(t).len() as u32), encode_utf8(t));
    lemma_be32_injective(encode_utf8(s).len() as u32, encode_utf8(t).len() as u32);
    encode_utf8_decode_utf8(s);
    encode_utf8_decode_utf8(t);
}

/// Relies on `String::from_utf8`: it succeeds exactly on valid UTF-8, and the
/// string it returns holds those bytes.
#[verifier::external_body]
fn string_from_utf8(v: Vec<u8>) -> (r: Option<String>)
    ensures
        r is Some <==> valid_utf8(v@),
        r matches Some(s) ==> encode_utf8(s@) == v@,
{
    String::from_utf8(v).ok()
}

/// Appends the encoding of `s`, or returns `false` and leaves `out` alone when
/// its bytes alone exceed the payload limit.
fn push_str(out: &mut Vec<u8>, s: &String) -> (r: bool)
    ensures
        r ==> final(out)@ == old(out)@ + str_bytes(s@) && str_fits(s@),
        !r ==> final(out)@ == old(out)@ && encode_utf8(s@).len() > MAX_PAYLOAD,
{
    let b = s.as_str().as_bytes();
    if b.len() > MAX_PAYLOAD {
        return false;
    }
    push_u32(out, b.len() as u32);
    let ghost start = out@;
    let mut i: usize = 0;
    while i < b.len()
        invariant
            i <= b@.len(),
            out@ == start + b@.subrange(0, i as int),
        decreases b@.len() - i,
    {
        out.push(b[i]);
        i = i + 1;
        assert(out@ =~= start + b@.subrange(0, i as int));
    }
    assert(b@.subrange(0, b@.len() as int) =~= b@);
    true
}

/// Reads one string at `pos`: the string and the position after it.
fn read_str(b: &[u8], pos: usize) -> (r: Option<(String, usize)>)
    requires
        pos <= b@.len(),
    ensures
        r matches Some((s, p)) ==> pos < p <= b@.len() && str_fits(s@) && b@.subrange(
            pos as int,
            p as int,
        ) == str_bytes(s@),
        r is None ==> forall|t: Seq<char>| str_fits(t) ==> !is_at(b@, pos as int, #[trigger] str_bytes(t)),
{
    let (n, p) = match read_u32(b, pos) {
        Some(x) => x,
        None => {
            assert forall|t: Seq<char>| str_fits(t) implies !is_at(b@, pos as int, #[trigger] str_bytes(t)) by {
                assert(str_bytes(t).len() >= 4);
            }
            return None;
        },
    };
    let n = n as usize;
    if b.len() - p < n {
        assert forall|t: Seq<char>| str_fits(t) implies !is_at(b@, pos as int, #[trigger] str_bytes(t)) by {
            if is_at(b@, pos as int, str_bytes(t)) {
                lemma_is_at_split(b@, pos as int, be32(encode_utf8(t).len() as u32), encode_utf8(t));
                lemma_be32_injective(encode_utf8(t).len() as u32, n as u32);
            }
        }
        return None;
    }
    let end = p + n;
    let mut v: Vec<u8> = Vec::new();
    let mut i: usize = p;
    while i < end
        invariant
            p <= i <= end <= b@.len(),
            end == p + n,
            v@ == b@.subrange(p as int, i as int),
        decreases end - i,
    {
        v.push(b[i]);
        i = i + 1;
        assert(v@ =~= b@.subrange(p as int, i as int));
    }
    match string_from_utf8(v) {
        Some(s) => {
            assert(b@.subrange(pos as int, (p + n) as int) =~= b@.subrange(pos as int, p as int)
                + b@.subrange(p as int, (p + n) as int));
            Some((s, p + n))
        },
        None => {
            assert forall|t: Seq<char>| str_fits(t) implies !is_at(b@, pos as int, #[trigger] str_bytes(t)) by {
                if is_at(b@, pos as int, str_bytes(t)) {
                    lemma_is_at_split(b@, pos as int, be32(encode_utf8(t).len() as u32), encode_utf8(t));
                    lemma_be32_injective(encode_utf8(t).len() as u32, n as u32);
                    encode_utf8_valid_utf8(t);
                }
            }
            None
        },
    }
}

} // verus!

verus! {

pub open spec fn strs_fit(ss: Seq<Seq<char>>) -> bool {
    forall|i: int| 0 <= i < ss.len() ==> str_fits(#[trigger] ss[i])
}

pub proof fn lemma_strs_len(ss: Seq<Seq<char>>)
    ensures
        strs_bytes(ss).len() >= 4 * ss.len(),
    decreases ss.len(),
{
    if ss.len() > 0 {
        lemma_strs_len(ss.drop_last());
    }
}

/// The encoding of the first `j` strings stands where the whole list does.
pub proof fn lemma_strs_prefix(b: Seq<u8>, pos: int, ss: Seq<Seq<char>>, j: int)
    requires
        0 <= j <= ss.len(),
        is_at(b, pos, strs_bytes(ss)),
    ensures
        is_at(b, pos, strs_bytes(ss.take(j))),
    decreases ss.len(),
{
    if j == ss.len() {
        assert(ss.take(j) =~= ss);
    } else {
        lemma_is_at_split(b, pos, strs_bytes(ss.drop_last()), str_bytes(ss.last()));
        lemma_strs_prefix(b, pos, ss.drop_last(), j);
        assert(ss.drop_last().take(j) =~= ss.take(j));
    }
}

/// Two fitting lists of the same count encoded at the same place are equal.
pub proof fn lemma_strs_unique(b: Seq<u8>, pos: int, ss: Seq<Seq<char>>, ts: Seq<Seq<char>>)
    requires
        ss.len() == ts.len(),
        strs_fit(ss),
        strs_fit(ts),
        is_at(b, pos, strs_bytes(ss)),
        is_at(b, pos, strs_bytes(ts)),
    ensures
        ss == ts,
    decreases ss.len(),
{
    if ss.len() > 0 {
        lemma_is_at_split(b, pos, strs_bytes(ss.drop_last()), str_bytes(ss.last()));
        lemma_is_at_split(b, pos, strs_bytes(ts.drop_last()), str_bytes(ts.last()));
        lemma_strs_unique(b, pos, ss.drop_last(), ts.drop_last());
        lemma_str_unique(
            b,
            pos + strs_bytes(ss.drop_last()).len(),
            ss.last(),
            ts.last(),
        );
        assert(ss =~= ss.drop_last().push(ss.last()));
        assert(ts =~= ts.drop_last().push(ts.last()));
    } else {
        assert(ss =~= ts);
    }
}

/// Appends the encoding of each string in turn; `false` when the result would
/// pass the payload limit.
fn push_strs(out: &mut Vec<u8>, ss: &Vec<String>) -> (r: bool)
    requires
        old(out)@.len() <= MAX_PAYLOAD,
    ensures
        r ==> final(out)@ == old(out)@ + strs_bytes(strings_view(ss@)) && final(out)@.len()
            <= MAX_PAYLOAD && strs_fit(strings_view(ss@)),
        !r ==> old(out)@.len() + strs_bytes(strings_view(ss@)).len() > MAX_PAYLOAD,
{
    let ghost start = out@;
    let ghost all = strings_view(ss@);
    let mut i: usize = 0;
    while i < ss.len()
        invariant
            i <= ss@.len(),
            all == strings_view(ss@),
            start == old(out)@,
            out@ == start + strs_bytes(all.take(i as int)),
            out@.len() <= MAX_PAYLOAD,
            strs_fit(all.take(i as int)),
        decreases ss@.len() - i,
    {
        let ghost before = out@;
        let ok = push_str(out, &ss[i]);
        proof {
            let b = strs_bytes(all);
            assert(is_at(b, 0, b)) by {
                assert(b.subrange(0, b.len() as int) =~= b);
            }
            lemma_strs_prefix(b, 0, all, i + 1);
            assert(all.take(i + 1).drop_last() =~= all.take(i as int));
            assert(all.take(i + 1).last() == ss@[i as int]@);
            assert(strs_bytes(all.take(i + 1)).len() <= b.len());
            assert(strs_bytes(all.take(i + 1)) == strs_bytes(all.take(i as int)) + str_bytes(
                ss@[i as int]@,
            ));
        }
        if !ok {
            return false;
        }
        assert(out@ =~= start + strs_bytes(all.take(i + 1)));
        if out.len() > MAX_PAYLOAD {
            return false;
        }
        i = i + 1;
        assert(out@ =~= start + strs_bytes(all.take(i as int)));
    }
    assert(all.take(i as int) =~= all);
    true
}

/// Reads `n` strings at `pos`: the strings and the position after them.
fn read_strs(b: &[u8], pos: usize, n: u32) -> (r: Option<(Vec<String>, usize)>)
    requires
        pos <= b@.len(),
    ensures
        r matches Some((c, p)) ==> pos <= p <= b@.len() && c@.len() == n && strs_fit(
            strings_view(c@),
        ) && b@.subrange(pos as int, p as int) == strs_bytes(strings_view(c@)),
        r is None ==> forall|ts: Seq<Seq<char>>|
            ts.len() == n && strs_fit(ts) ==> !is_at(b@, pos as int, #[trigger] strs_bytes(ts)),
{
    let mut c: Vec<String> = Vec::new();
    let mut q: usize = pos;
    let mut i: u32 = 0;
    assert(strings_view(c@) =~= Seq::<Seq<char>>::empty());
    assert(b@.subrange(pos as int, pos as int) =~= Seq::<u8>::empty());
    while i < n
        invariant
            pos <= q <= b@.len(),
            i <= n,
            c@.len() == i,
            strs_fit(strings_view(c@)),
            b@.subrange(pos as int, q as int) == strs_bytes(strings_view(c@)),
        decreases n - i,
    {
        match read_str(b, q) {
            Some((s, p)) => {
                let ghost old_c = strings_view(c@);
                c.push(s);
                proof {
                    assert(strings_view(c@) =~= old_c.push(s@));
                    assert(strings_view(c@).drop_last() =~= old_c);
                    assert(b@.subrange(pos as int, p as int) =~= b@.subrange(pos as int, q as int)
                        + b@.subrange(q as int, p as int));
                }
                q = p;
                i = i + 1;
            },
            None => {
                assert forall|ts: Seq<Seq<char>>|
                    ts.len() == n && strs_fit(ts) implies !is_at(b@, pos as int, #[trigger] strs_bytes(ts)) by {
                    if is_at(b@, pos as int, strs_bytes(ts)) {
                        let cur = strings_view(c@);
                        lemma_strs_prefix(b@, pos as int, ts, i + 1);
                        let t1 = ts.take(i + 1);
                        assert(t1.drop_last() =~= ts.take(i as int));
                        lemma_is_at_split(b@, pos as int, strs_bytes(ts.take(i as int)), str_bytes(t1.last()));
                        assert(strs_fit(ts.take(i as int)));
                        lemma_strs_unique(b@, pos as int, ts.take(i as int), cur);
                        assert(str_fits(ts[i as int]));
                    }
                }
                return None;
            },
        }
    }
    Some((c, q))
}

} // verus!

verus! {

pub open spec fn auth_code(k: AuthErrorKind) -> u8 {
    match k {
        AuthErrorKind::WrongCredential => 0,
        AuthErrorKind::AccountExpired => 1,
        AuthErrorKind::CredentialExpired => 2,
        AuthErrorKind::PermissionDenied => 3,
        AuthErrorKind::UserUnknown => 4,
        AuthErrorKind::TooManyAttempts => 5,
        AuthErrorKind::Aborted => 6,
        AuthErrorKind::UnknownFailure => 7,
    }
}

pub open spec fn transport_code(k: TransportErrorKind) -> u8 {
    match k {
        TransportErrorKind::ChannelClosed => 0,
        TransportErrorKind::FramingError => 1,
        TransportErrorKind::ProcessSpawnFailed => 2,
        TransportErrorKind::BackendCrashed => 3,
        TransportErrorKind::BackendUnavailable => 4,
    }
}

pub open spec fn outcome_bytes(o: Outcome) -> Seq<u8> {
    match o {
        Outcome::Granted => seq![0u8],
        Outcome::Denied(k) => seq![1u8, auth_code(k)],
        Outcome::Failed(k) => seq![2u8, transport_code(k)],
    }
}

pub open spec fn request_fits(v: RequestView) -> bool {
    str_fits(v.service) && str_fits(v.user) && str_fits(v.secret) && v.conversation.len()
        <= u32::MAX && strs_fit(v.conversation)
}

/// The request's fields after the tag byte.
pub open spec fn request_fields(v: RequestView) -> Seq<u8> {
    be64(v.id) + (str_bytes(v.service) + (str_bytes(v.user) + (str_bytes(v.secret) + (be32(
        v.conversation.len() as u32,
    ) + strs_bytes(v.conversation)))))
}

pub open spec fn request_bytes(v: RequestView) -> Seq<u8> {
    seq![TAG_REQUEST] + request_fields(v)
}

pub open spec fn response_bytes(r: Response) -> Seq<u8> {
    seq![TAG_RESPONSE] + (be64(r.id) + outcome_bytes(r.outcome))
}

pub open spec fn envelope_fits(e: EnvelopeView) -> bool {
    match e {
        EnvelopeView::Request(r) => request_fits(r),
        EnvelopeView::Response(_) => true,
    }
}

/// The envelope on the wire, without the frame's length prefix.
pub open spec fn envelope_bytes(e: EnvelopeView) -> Seq<u8> {
    match e {
        EnvelopeView::Request(r) => request_bytes(r),
        EnvelopeView::Response(r) => response_bytes(r),
    }
}

fn auth_kind_code(k: AuthErrorKind) -> (r: u8)
    ensures
        r == auth_code(k),
{
    match k {
        AuthErrorKind::WrongCredential => 0,
        AuthErrorKind::AccountExpired => 1,
        AuthErrorKind::CredentialExpired => 2,
        AuthErrorKind::PermissionDenied => 3,
        AuthErrorKind::UserUnknown => 4,
        AuthErrorKind::TooManyAttempts => 5,
        AuthErrorKind::Aborted => 6,
        AuthErrorKind::UnknownFailure => 7,
    }
}

fn transport_kind_code(k: TransportErrorKind) -> (r: u8)
    ensures
        r == transport_code(k),
{
    match k {
        TransportErrorKind::ChannelClosed => 0,
        TransportErrorKind::FramingError => 1,
        TransportErrorKind::ProcessSpawnFailed => 2,
        TransportErrorKind::BackendCrashed => 3,
        TransportErrorKind::BackendUnavailable => 4,
    }
}

fn auth_kind_of(c: u8) -> (r: Option<AuthErrorKind>)
    ensures
        r matches Some(k) ==> auth_code(k) == c,
        r is None ==> forall|k: AuthErrorKind| auth_code(k) != c,
{
    match c {
        0 => Some(AuthErrorKind::WrongCredential),
        1 => Some(AuthErrorKind::AccountExpired),
        2 => Some(AuthErrorKind::CredentialExpired),
        3 => Some(AuthErrorKind::PermissionDenied),
        4 => Some(AuthErrorKind::UserUnknown),
        5 => Some(AuthErrorKind::TooManyAttempts),
        6 => Some(AuthErrorKind::Aborted),
        7 => Some(AuthErrorKind::UnknownFailure),
        _ => None,
    }
}

fn transport_kind_of(c: u8) -> (r: Option<TransportErrorKind>)
    ensures
        r matches Some(k) ==> transport_code(k) == c,
        r is None ==> forall|k: TransportErrorKind| transport_code(k) != c,
{
    match c {
        0 => Some(TransportErrorKind::ChannelClosed),
        1 => Some(TransportErrorKind::FramingError),
        2 => Some(TransportErrorKind::ProcessSpawnFailed),
        3 => Some(TransportErrorKind::BackendCrashed),
        4 => Some(TransportErrorKind::BackendUnavailable),
        _ => None,
    }
}

fn encode_request(r: &Request) -> (res: Result<Vec<u8>, TransportErrorKind>)
    ensures
        match res {
            Ok(v) => v@ == request_bytes(r@) && v@.len() <= MAX_PAYLOAD && request_fits(r@),
            Err(k) => k == TransportErrorKind::FramingError && request_bytes(r@).len()
                > MAX_PAYLOAD,
        },
{
    let ghost v = r@;
    let mut out: Vec<u8> = Vec::new();
    out.push(TAG_REQUEST);
    push_u64(&mut out, r.id);
    if !push_str(&mut out, &r.service) || out.len() > MAX_PAYLOAD {
        return Err(TransportErrorKind::FramingError);
    }
    if !push_str(&mut out, &r.user) || out.len() > MAX_PAYLOAD {
        return Err(TransportErrorKind::FramingError);
    }
    if !push_str(&mut out, &r.secret) || out.len() > MAX_PAYLOAD {
        return Err(TransportErrorKind::FramingError);
    }
    let n = r.conversation.len();
    if n > MAX_PAYLOAD {
        proof {
            lemma_strs_len(v.conversation);
        }
        return Err(TransportErrorKind::FramingError);
    }
    push_u32(&mut out, n as u32);
    if out.len() > MAX_PAYLOAD {
        return Err(TransportErrorKind::FramingError);
    }
    if !push_strs(&mut out, &r.conversation) {
        return Err(TransportErrorKind::FramingError);
    }
    assert(out@ =~= request_bytes(v));
    Ok(out)
}

fn encode_response(r: &Response) -> (v: Vec<u8>)
    ensures
        v@ == response_bytes(*r),
        v@.len() <= 11,
{
    let mut out: Vec<u8> = Vec::new();
    out.push(TAG_RESPONSE);
    push_u64(&mut out, r.id);
    match r.outcome {
        Outcome::Granted => out.push(0),
        Outcome::Denied(k) => {
            out.push(1);
            out.push(auth_kind_code(k));
        },
        Outcome::Failed(k) => {
            out.push(2);
            out.push(transport_kind_code(k));
        },
    }
    assert(out@ =~= response_bytes(*r));
    out
}

/// Encodes one envelope; a `FramingError` when it would exceed `MAX_PAYLOAD`.
pub fn encode_envelope(e: &Envelope) -> (res: Result<Vec<u8>, TransportErrorKind>)
    ensures
        match res {
            Ok(v) => v@ == envelope_bytes(e@) && v@.len() <= MAX_PAYLOAD && envelope_fits(e@),
            Err(k) => k == TransportErrorKind::FramingError && envelope_bytes(e@).len()
                > MAX_PAYLOAD,
        },
{
    match e {
        Envelope::Request(r) => encode_request(r),
        Envelope::Response(r) => Ok(encode_response(r)),
    }
}

} // verus!

verus! {

#[verifier::rlimit(60)]
fn decode_request(b: &[u8]) -> (r: Option<Request>)
    requires
        b@.len() >= 1,
        b@[0] == TAG_REQUEST,
    ensures
        r matches Some(q) ==> request_fits(q@) && request_bytes(q@) == b@,
        r is None ==> forall|w: RequestView| request_fits(w) ==> #[trigger] request_bytes(w) != b@,
{
    let ghost has = exists|w: RequestView| request_fits(w) && #[trigger] request_bytes(w) == b@;
    let ghost w = choose|w: RequestView| request_fits(w) && #[trigger] request_bytes(w) == b@;
    let ghost t5 = be32(w.conversation.len() as u32) + strs_bytes(w.conversation);
    let ghost t4 = str_bytes(w.secret) + t5;
    let ghost t3 = str_bytes(w.user) + t4;
    let ghost t2 = str_bytes(w.service) + t3;
    proof {
        if has {
            assert(b@.subrange(0, b@.len() as int) =~= b@);
            lemma_is_at_split(b@, 0, seq![TAG_REQUEST], request_fields(w));
            lemma_is_at_split(b@, 1, be64(w.id), t2);
            lemma_is_at_split(b@, 9, str_bytes(w.service), t3);
        }
    }
    let (id, at1) = match read_u64(b, 1) {
        Some(x) => x,
        None => return None,
    };
    proof {
        if has {
            lemma_be64_injective(id, w.id);
        }
    }
    let (service, at2) = match read_str(b, at1) {
        Some(x) => x,
        None => return None,
    };
    proof {
        if has {
            lemma_str_unique(b@, 9, service@, w.service);
            lemma_is_at_split(b@, at2 as int, str_bytes(w.user), t4);
        }
    }
    let (user, at3) = match read_str(b, at2) {
        Some(x) => x,
        None => return None,
    };
    proof {
        if has {
            lemma_str_unique(b@, at2 as int, user@, w.user);
            lemma_is_at_split(b@, at3 as int, str_bytes(w.secret), t5);
        }
    }
    let (secret, at4) = match read_str(b, at3) {
        Some(x) => x,
        None => return None,
    };
    proof {
        if has {
            lemma_str_unique(b@, at3 as int, secret@, w.secret);
            lemma_is_at_split(b@, at4 as int, be32(w.conversation.len() as u32), strs_bytes(w.conversation));
        }
    }
    let (n, at5) = match read_u32(b, at4) {
        Some(x) => x,
        None => return None,
    };
    proof {
        if has {
            lemma_be32_injective(n, w.conversation.len() as u32);
        }
    }
    let (conversation, at6) = match read_strs(b, at5, n) {
        Some(x) => x,
        None => return None,
    };
    proof {
        if has {
            lemma_strs_unique(b@, at5 as int, strings_view(conversation@), w.conversation);
        }
    }
    if at6 != b.len() {
        return None;
    }
    let q = Request { id, service, user, secret, conversation };
    proof {
        let s = b@;
        assert(s =~= s.subrange(0, 1) + (s.subrange(1, at1 as int) + (s.subrange(at1 as int, at2 as int)
            + (s.subrange(at2 as int, at3 as int) + (s.subrange(at3 as int, at4 as int) + (s.subrange(
            at4 as int,
            at5 as int,
        ) + s.subrange(at5 as int, at6 as int)))))));
        assert(s.subrange(0, 1) =~= seq![TAG_REQUEST]);
        assert(b@ =~= request_bytes(q@));
    }
    Some(q)
}

fn decode_response(b: &[u8]) -> (r: Option<Response>)
    requires
        b@.len() >= 1,
        b@[0] == TAG_RESPONSE,
    ensures
        r matches Some(q) ==> response_bytes(q) == b@,
        r is None ==> forall|w: Response| #[trigger] response_bytes(w) != b@,
{
    let ghost has = exists|w: Response| #[trigger] response_bytes(w) == b@;
    let ghost w = choose|w: Response| #[trigger] response_bytes(w) == b@;
    proof {
        if has {
            assert(b@.subrange(0, b@.len() as int) =~= b@);
            lemma_is_at_split(b@, 0, seq![TAG_RESPONSE], be64(w.id) + outcome_bytes(w.outcome));
            lemma_is_at_split(b@, 1, be64(w.id), outcome_bytes(w.outcome));
        }
    }
    let (id, at1) = match read_u64(b, 1) {
        Some(x) => x,
        None => return None,
    };
    proof {
        if has {
            lemma_be64_injective(id, w.id);
            assert(b@.subrange(9, b@.len() as int) == outcome_bytes(w.outcome));
        }
    }
    if b.len() < 10 {
        return None;
    }
    let outcome = if b[9] == 0 && b.len() == 10 {
        Outcome::Granted
    } else if b[9] == 1 && b.len() == 11 {
        match auth_kind_of(b[10]) {
            Some(k) => Outcome::Denied(k),
            None => {
                proof {
                    if has {
                        assert(b@[10] == outcome_bytes(w.outcome)[1]);
                    }
                }
                return None;
            },
        }
    } else if b[9] == 2 && b.len() == 11 {
        match transport_kind_of(b[10]) {
            Some(k) => Outcome::Failed(k),
            None => {
                proof {
                    if has {
                        assert(b@[10] == outcome_bytes(w.outcome)[1]);
                    }
                }
                return None;
            },
        }
    } else {
        proof {
            if has {
                assert(b@[9] == outcome_bytes(w.outcome)[0]);
            }
        }
        return None;
    };
    let q = Response { id, outcome };
    proof {
        assert(b@ =~= b@.subrange(0, 1) + (b@.subrange(1, 9) + b@.subrange(9, b@.len() as int)));
        assert(b@ =~= response_bytes(q));
    }
    Some(q)
}

/// Decodes one envelope: `Some` exactly when `b` is the encoding of one.
pub fn decode_envelope(b: &[u8]) -> (r: Option<Envelope>)
    ensures
        r matches Some(e) ==> envelope_fits(e@) && envelope_bytes(e@) == b@,
        r is None ==> forall|w: EnvelopeView|
            envelope_fits(w) ==> #[trigger] envelope_bytes(w) != b@,
{
    if b.len() == 0 {
        return None;
    }
    if b[0] == TAG_REQUEST {
        match decode_request(b) {
            Some(q) => Some(Envelope::Request(q)),
            None => {
                assert forall|w: EnvelopeView| envelope_fits(w) implies #[trigger] envelope_bytes(w) != b@ by {
                    if let EnvelopeView::Request(x) = w {
                        assert(request_bytes(x) != b@);
                    } else if let EnvelopeView::Response(x) = w {
                        assert(response_bytes(x)[0] == TAG_RESPONSE);
                    }
                }
                None
            },
        }
    } else if b[0] == TAG_RESPONSE {
        match decode_response(b) {
            Some(q) => Some(Envelope::Response(q)),
            None => {
                assert forall|w: EnvelopeView| envelope_fits(w) implies #[trigger] envelope_bytes(w) != b@ by {
                    if let EnvelopeView::Response(x) = w {
                        assert(response_bytes(x) != b@);
                    } else if let EnvelopeView::Request(x) = w {
                        assert(request_bytes(x)[0] == TAG_REQUEST);
                    }
                }
                None
            },
        }
    } else {
        assert forall|w: EnvelopeView| envelope_fits(w) implies #[trigger] envelope_bytes(w) != b@ by {
            if let EnvelopeView::Response(x) = w {
                assert(response_bytes(x)[0] == TAG_RESPONSE);
            } else if let EnvelopeView::Request(x) = w {
                assert(request_bytes(x)[0] == TAG_REQUEST);
            }
        }
        None
    }
}

} // verus!

verus! {

proof fn lemma_str_within(ss: Seq<Seq<char>>, i: int)
    requires
        0 <= i < ss.len(),
    ensures
        str_bytes(ss[i]).len() <= strs_bytes(ss).len(),
{
    let b = strs_bytes(ss);
    assert(b.subrange(0, b.len() as int) =~= b);
    lemma_strs_prefix(b, 0, ss, i + 1);
    assert(ss.take(i + 1).drop_last() =~= ss.take(i));
}

proof fn lemma_request_fits(v: RequestView)
    requires
        request_bytes(v).len() <= MAX_PAYLOAD,
    ensures
        request_fits(v),
{
    lemma_strs_len(v.conversation);
    assert forall|i: int| 0 <= i < v.conversation.len() implies str_fits(#[trigger] v.conversation[i]) by {
        lemma_str_within(v.conversation, i);
    }
}

proof fn lemma_request_injective(v: RequestView, w: RequestView)
    requires
        request_fits(v),
        request_fits(w),
        request_bytes(v) == request_bytes(w),
    ensures
        v == w,
{
    let b = request_bytes(v);
    assert(b.subrange(0, b.len() as int) =~= b);
    let t5 = |x: RequestView| be32(x.conversation.len() as u32) + strs_bytes(x.conversation);
    let t4 = |x: RequestView| str_bytes(x.secret) + t5(x);
    let t3 = |x: RequestView| str_bytes(x.user) + t4(x);
    let t2 = |x: RequestView| str_bytes(x.service) + t3(x);
    assert(request_fields(v) == be64(v.id) + t2(v));
    assert(request_fields(w) == be64(w.id) + t2(w));
    lemma_is_at_split(b, 0, seq![TAG_REQUEST], request_fields(v));
    lemma_is_at_split(b, 0, seq![TAG_REQUEST], request_fields(w));
    lemma_is_at_split(b, 1, be64(v.id), t2(v));
    lemma_is_at_split(b, 1, be64(w.id), t2(w));
    lemma_be64_injective(v.id, w.id);
    lemma_is_at_split(b, 9, str_bytes(v.service), t3(v));
    lemma_is_at_split(b, 9, str_bytes(w.service), t3(w));
    lemma_str_unique(b, 9, v.service, w.service);
    let at3: int = 9 + str_bytes(v.service).len() as int;
    lemma_is_at_split(b, at3, str_bytes(v.user), t4(v));
    lemma_is_at_split(b, at3, str_bytes(w.user), t4(w));
    lemma_str_unique(b, at3, v.user, w.user);
    let at4: int = at3 + str_bytes(v.user).len();
    lemma_is_at_split(b, at4, str_bytes(v.secret), t5(v));
    lemma_is_at_split(b, at4, str_bytes(w.secret), t5(w));
    lemma_str_unique(b, at4, v.secret, w.secret);
    let at5: int = at4 + str_bytes(v.secret).len();
    lemma_is_at_split(b, at5, be32(v.conversation.len() as u32), strs_bytes(v.conversation));
    lemma_is_at_split(b, at5, be32(w.conversation.len() as u32), strs_bytes(w.conversation));
    lemma_be32_injective(v.conversation.len() as u32, w.conversation.len() as u32);
    lemma_strs_unique(b, at5 + 4, v.conversation, w.conversation);
}

proof fn lemma_response_injective(v: Response, w: Response)
    requires
        response_bytes(v) == response_bytes(w),
    ensures
        v == w,
{
    let b = response_bytes(v);
    assert(b.subrange(0, b.len() as int) =~= b);
    lemma_is_at_split(b, 0, seq![TAG_RESPONSE], be64(v.id) + outcome_bytes(v.outcome));
    lemma_is_at_split(b, 0, seq![TAG_RESPONSE], be64(w.id) + outcome_bytes(w.outcome));
    lemma_is_at_split(b, 1, be64(v.id), outcome_bytes(v.outcome));
    lemma_is_at_split(b, 1, be64(w.id), outcome_bytes(w.outcome));
    lemma_be64_injective(v.id, w.id);
    let (x, y) = (outcome_bytes(v.outcome), outcome_bytes(w.outcome));
    assert(x == y);
    assert(x[0] == y[0]);
    if x.len() == 2 {
        assert(x[1] == y[1]);
    }
}

/// Encoding then decoding gives the envelope back: whatever
/// `encode_envelope` accepts fits the format, and no other fitting envelope
/// shares its bytes, so `decode_envelope` returns one equal in every field.
pub proof fn lemma_envelope_round_trip(v: EnvelopeView, w: EnvelopeView)
    requires
        envelope_bytes(v).len() <= MAX_PAYLOAD,
        envelope_fits(w),
        envelope_bytes(w) == envelope_bytes(v),
    ensures
        envelope_fits(v),
        w == v,
{
    match v {
        EnvelopeView::Request(x) => {
            lemma_request_fits(x);
            match w {
                EnvelopeView::Request(y) => lemma_request_injective(x, y),
                EnvelopeView::Response(y) => {
                    assert(envelope_bytes(w)[0] == envelope_bytes(v)[0]);
                },
            }
        },
        EnvelopeView::Response(x) => {
            match w {
                EnvelopeView::Response(y) => lemma_response_injective(x, y),
                EnvelopeView::Request(y) => {
                    assert(envelope_bytes(w)[0] == envelope_bytes(v)[0]);
                },
            }
        },
    }
}

} // verus!
