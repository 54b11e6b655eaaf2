use pam_sandboxed::frame::{encode_frame, split_frames};
use pam_sandboxed::message::{
    AuthErrorKind, Envelope, Outcome, Request, Response, TransportErrorKind,
};
use pam_sandboxed::wire::{decode_envelope, encode_envelope, MAX_PAYLOAD};

fn request(id: u64, secret: &str, conversation: &[&str]) -> Request {
    Request {
        id,
        service: "other".to_string(),
        user: "alice".to_string(),
        secret: secret.to_string(),
        conversation: conversation.iter().map(|s| s.to_string()).collect(),
    }
}

fn same_request(a: &Request, b: &Request) -> bool {
    a.id == b.id
        && a.service == b.service
        && a.user == b.user
        && a.secret == b.secret
        && a.conversation == b.conversation
}

#[test]
fn request_round_trip() {
    let q = request(42, "pässwörd", &["one", "", "drei ✓"]);
    let bytes = encode_envelope(&Envelope::Request(q.clone())).unwrap();
    match decode_envelope(&bytes) {
        Some(Envelope::Request(r)) => assert!(same_request(&q, &r)),
        other => panic!("unexpected {:?}", other),
    }
}

#[test]
fn response_round_trip() {
    let outcomes = [
        Outcome::Granted,
        Outcome::Denied(AuthErrorKind::WrongCredential),
        Outcome::Denied(AuthErrorKind::UnknownFailure),
        Outcome::Failed(TransportErrorKind::BackendUnavailable),
        Outcome::Failed(TransportErrorKind::ChannelClosed),
    ];
    for (i, o) in outcomes.iter().enumerate() {
        let r = Response { id: u64::MAX - i as u64, outcome: *o };
        let bytes = encode_envelope(&Envelope::Response(r)).unwrap();
        match decode_envelope(&bytes) {
            Some(Envelope::Response(back)) => assert_eq!(back, r),
            other => panic!("unexpected {:?}", other),
        }
    }
}

#[test]
fn response_bytes_exact() {
    let r = Response { id: 0x0102030405060708, outcome: Outcome::Denied(AuthErrorKind::UserUnknown) };
    let bytes = encode_envelope(&Envelope::Response(r)).unwrap();
    assert_eq!(bytes, vec![1, 1, 2, 3, 4, 5, 6, 7, 8, 1, 4]);
    let framed = encode_frame(&Envelope::Response(r)).unwrap();
    assert_eq!(framed, vec![0, 0, 0, 11, 1, 1, 2, 3, 4, 5, 6, 7, 8, 1, 4]);
}

#[test]
fn request_bytes_exact() {
    let q = Request {
        id: 7,
        service: "s".to_string(),
        user: "u".to_string(),
        secret: "p".to_string(),
        conversation: vec!["x".to_string()],
    };
    let bytes = encode_envelope(&Envelope::Request(q)).unwrap();
    assert_eq!(
        bytes,
        vec![
            0, 0, 0, 0, 0, 0, 0, 0, 7, 0, 0, 0, 1, b's', 0, 0, 0, 1, b'u', 0, 0, 0, 1, b'p', 0, 0,
            0, 1, 0, 0, 0, 1, b'x'
        ]
    );
}

#[test]
fn two_frames_decode_in_order() {
    let a = Envelope::Request(request(1, "correctpass", &[]));
    let b = Envelope::Response(Response { id: 9, outcome: Outcome::Granted });
    let mut stream = encode_frame(&a).unwrap();
    stream.extend(encode_frame(&b).unwrap());
    let (es, used) = split_frames(&stream).unwrap();
    assert_eq!(used, stream.len());
    assert_eq!(es.len(), 2);
    match (&es[0], &es[1]) {
        (Envelope::Request(x), Envelope::Response(y)) => {
            assert_eq!(x.id, 1);
            assert_eq!(x.secret, "correctpass");
            assert_eq!(*y, Response { id: 9, outcome: Outcome::Granted });
        }
        other => panic!("unexpected {:?}", other),
    }
}

#[test]
fn partial_frame_is_left_for_later() {
    let a = encode_frame(&Envelope::Response(Response { id: 3, outcome: Outcome::Granted })).unwrap();
    let mut stream = a.clone();
    stream.extend_from_slice(&a[..a.len() - 1]);
    let (es, used) = split_frames(&stream).unwrap();
    assert_eq!(es.len(), 1);
    assert_eq!(used, a.len());
    let (es, used) = split_frames(&[0, 0]).unwrap();
    assert!(es.is_empty());
    assert_eq!(used, 0);
    let (es, used) = split_frames(&[]).unwrap();
    assert!(es.is_empty());
    assert_eq!(used, 0);
}

#[test]
fn oversized_length_is_framing_error() {
    let n = (MAX_PAYLOAD as u32) + 1;
    let stream = n.to_be_bytes().to_vec();
    assert!(matches!(split_frames(&stream), Err(TransportErrorKind::FramingError)));
}

#[test]
fn garbled_payload_is_framing_error() {
    assert!(matches!(split_frames(&[0, 0, 0, 2, 9, 9]), Err(TransportErrorKind::FramingError)));
    // a response with an unknown outcome tag
    assert!(decode_envelope(&[1, 0, 0, 0, 0, 0, 0, 0, 1, 5]).is_none());
    // trailing bytes after a whole response
    assert!(decode_envelope(&[1, 0, 0, 0, 0, 0, 0, 0, 1, 0, 0]).is_none());
    // a string that is not UTF-8
    let mut bad = vec![0u8, 0, 0, 0, 0, 0, 0, 0, 1, 0, 0, 0, 1, 0xff];
    bad.extend_from_slice(&[0, 0, 0, 0, 0, 0, 0, 0, 0, 0, 0, 0]);
    assert!(decode_envelope(&bad).is_none());
    assert!(decode_envelope(&[]).is_none());
}

#[test]
fn too_large_request_is_refused() {
    let big = "a".repeat(MAX_PAYLOAD);
    let q = request(1, &big, &[]);
    assert!(matches!(encode_envelope(&Envelope::Request(q.clone())), Err(TransportErrorKind::FramingError)));
    assert!(matches!(encode_frame(&Envelope::Request(q)), Err(TransportErrorKind::FramingError)));
    let fits = request(1, &"b".repeat(1000), &["c"; 10]);
    assert!(encode_envelope(&Envelope::Request(fits)).is_ok());
}
