use pam_sandboxed::client::{Multiplexer, Resolution};
use pam_sandboxed::frame::split_frames;
use pam_sandboxed::message::{
    AuthError, AuthErrorKind, Envelope, Outcome, Request, Response, TransportErrorKind,
};
use pam_sandboxed::server::{
    answer, answer_with_stub, requests_of, response_frame, stub_answer, stub_authenticate,
    WorkQueue,
};
use pam_sandboxed::supervisor::{
    child_setup, ChildEvent, ChildHandle, Config, Identity, Liveness, SetupStep,
    DEFAULT_FD_LIMIT, DEFAULT_WORKERS,
};
use pam_sandboxed::test_mode;

/// Plays the child: decodes the frames, answers each with the stub engine,
/// and returns the response frames in the order given by `order`.
fn serve_stub(frames: &[Vec<u8>], order: &[usize]) -> Vec<u8> {
    let mut stream = Vec::new();
    for f in frames {
        stream.extend_from_slice(f);
    }
    let (es, used) = split_frames(&stream).unwrap();
    assert_eq!(used, stream.len());
    let requests: Vec<Request> = requests_of(es).unwrap();
    let mut out = Vec::new();
    for &i in order {
        out.extend(response_frame(&answer_with_stub(&requests[i])));
    }
    out
}

fn resolve_all(mux: &mut Multiplexer, stream: &[u8]) -> Vec<Resolution> {
    let (es, used) = split_frames(stream).unwrap();
    assert_eq!(used, stream.len());
    let mut out = Vec::new();
    for e in es {
        match e {
            Envelope::Response(r) => out.push(mux.resolve(r).unwrap()),
            Envelope::Request(_) => panic!("request on the client side"),
        }
    }
    out
}

#[test]
fn ids_are_unique_while_pending() {
    let mut mux = Multiplexer::new();
    let mut ids = Vec::new();
    for _ in 0..50 {
        let (id, _) = mux.submit("other", "alice", "x", vec![]).unwrap();
        assert!(!ids.contains(&id));
        ids.push(id);
    }
    assert_eq!(mux.pending_count(), 50);
    mux.resolve(Response { id: ids[10], outcome: Outcome::Granted }).unwrap();
    let (id, _) = mux.submit("other", "alice", "x", vec![]).unwrap();
    assert!(!ids.contains(&id));
}

#[test]
fn stub_mode_decides_by_secret() {
    let mut mux = Multiplexer::new();
    let (a, fa) = mux.submit("other", "alice", "correctpass", vec![]).unwrap();
    let (b, fb) = mux.submit("other", "alice", "wrong", vec![]).unwrap();
    let back = serve_stub(&[fa, fb], &[0, 1]);
    let rs = resolve_all(&mut mux, &back);
    assert_eq!(rs[0], Resolution { id: a, outcome: Outcome::Granted });
    assert_eq!(rs[1].id, b);
    assert_eq!(rs[1].outcome.into_result(), Err(AuthError::Auth(AuthErrorKind::WrongCredential)));
    assert_eq!(rs[0].outcome.into_result(), Ok(()));
    assert_eq!(mux.pending_count(), 0);
}

#[test]
fn reordered_responses_reach_their_own_callers() {
    let mut mux = Multiplexer::new();
    let secrets = ["correctpass", "no", "correctpass", "nope", "x"];
    let mut frames = Vec::new();
    let mut ids = Vec::new();
    for s in secrets.iter() {
        let (id, f) = mux.submit("svc", "bob", s, vec!["answer".to_string()]).unwrap();
        ids.push(id);
        frames.push(f);
    }
    let back = serve_stub(&frames, &[4, 2, 0, 3, 1]);
    let rs = resolve_all(&mut mux, &back);
    assert_eq!(rs.len(), 5);
    for r in rs {
        let i = ids.iter().position(|&x| x == r.id).unwrap();
        let expect = if secrets[i] == "correctpass" {
            Outcome::Granted
        } else {
            Outcome::Denied(AuthErrorKind::WrongCredential)
        };
        assert_eq!(r.outcome, expect);
    }
}

#[test]
fn hundred_calls_half_granted() {
    let mut mux = Multiplexer::new();
    let mut frames = Vec::new();
    let mut granted_ids = Vec::new();
    for i in 0..100 {
        let secret = if i % 2 == 0 { "correctpass".to_string() } else { format!("secret-{}", i) };
        let (id, f) = mux.submit("other", "alice", &secret, vec![]).unwrap();
        if i % 2 == 0 {
            granted_ids.push(id);
        }
        frames.push(f);
    }
    let order: Vec<usize> = (0..100).rev().collect();
    let back = serve_stub(&frames, &order);
    let rs = resolve_all(&mut mux, &back);
    assert_eq!(rs.len(), 100);
    let ok: Vec<&Resolution> = rs.iter().filter(|r| r.outcome == Outcome::Granted).collect();
    assert_eq!(ok.len(), 50);
    for r in ok {
        assert!(granted_ids.contains(&r.id));
    }
    assert_eq!(mux.pending_count(), 0);
}

#[test]
fn channel_loss_fails_each_pending_once() {
    let mut mux = Multiplexer::new();
    let mut ids = Vec::new();
    for _ in 0..3 {
        ids.push(mux.submit("other", "alice", "pw", vec![]).unwrap().0);
    }
    mux.resolve(Response { id: ids[1], outcome: Outcome::Granted }).unwrap();
    let failed = mux.channel_lost();
    let unavailable = Outcome::Failed(TransportErrorKind::BackendUnavailable);
    assert_eq!(
        failed,
        vec![
            Resolution { id: ids[0], outcome: unavailable },
            Resolution { id: ids[2], outcome: unavailable },
        ]
    );
    assert!(!mux.is_open());
    assert_eq!(mux.pending_count(), 0);
    assert!(mux.channel_lost().is_empty());
    assert!(mux.resolve(Response { id: ids[0], outcome: Outcome::Granted }).is_none());
    assert!(matches!(
        mux.submit("other", "alice", "pw", vec![]),
        Err(TransportErrorKind::BackendUnavailable)
    ));
}

#[test]
fn unknown_response_is_ignored() {
    let mut mux = Multiplexer::new();
    let (id, _) = mux.submit("other", "alice", "pw", vec![]).unwrap();
    assert!(mux.resolve(Response { id: id + 100, outcome: Outcome::Granted }).is_none());
    assert_eq!(mux.pending_count(), 1);
    let r = mux.resolve(Response { id, outcome: Outcome::Denied(AuthErrorKind::Aborted) }).unwrap();
    assert_eq!(r, Resolution { id, outcome: Outcome::Denied(AuthErrorKind::Aborted) });
    assert!(mux.resolve(Response { id, outcome: Outcome::Granted }).is_none());
}

#[test]
fn oversized_request_is_not_recorded() {
    let mut mux = Multiplexer::new();
    let big = "z".repeat(2_000_000);
    assert!(matches!(
        mux.submit("other", "alice", &big, vec![]),
        Err(TransportErrorKind::FramingError)
    ));
    assert_eq!(mux.pending_count(), 0);
    let (id, _) = mux.submit("other", "alice", "pw", vec![]).unwrap();
    assert_eq!(id, 0);
}

#[test]
fn response_to_child_is_protocol_error() {
    let es = vec![Envelope::Response(Response { id: 1, outcome: Outcome::Granted })];
    assert!(requests_of(es).is_none());
}

#[test]
fn engine_status_becomes_outcome() {
    let q = Request {
        id: 5,
        service: "other".to_string(),
        user: "u".to_string(),
        secret: "s".to_string(),
        conversation: vec![],
    };
    assert_eq!(answer(&q, Ok(())), Response { id: 5, outcome: Outcome::Granted });
    assert_eq!(
        answer(&q, Err(AuthErrorKind::AccountExpired)),
        Response { id: 5, outcome: Outcome::Denied(AuthErrorKind::AccountExpired) }
    );
    assert_eq!(stub_authenticate(&"correctpass".to_string()), Outcome::Granted);
    assert_eq!(
        stub_authenticate(&"correctpas".to_string()),
        Outcome::Denied(AuthErrorKind::WrongCredential)
    );
    let mut c = Config::new();
    assert!(stub_answer(&c, &q).is_none());
    test_mode(&mut c, true);
    assert!(c.stub_mode);
    assert_eq!(
        stub_answer(&c, &q),
        Some(Response { id: 5, outcome: Outcome::Denied(AuthErrorKind::WrongCredential) })
    );
    test_mode(&mut c, false);
    assert!(!c.stub_mode);
}

#[test]
fn work_queue_bounds_reads() {
    assert!(WorkQueue::new(0).is_none());
    let mut q = WorkQueue::new(2).unwrap();
    assert!(q.may_read());
    assert!(q.take_slot());
    assert!(q.take_slot());
    assert!(!q.may_read());
    assert!(!q.take_slot());
    assert!(q.finish());
    assert!(q.may_read());
    assert!(q.finish());
    assert!(!q.finish());
}

#[test]
fn child_liveness_ends_once() {
    let mut c = ChildHandle::new(77);
    assert_eq!(c.liveness, Liveness::Starting);
    assert!(!c.observe(ChildEvent::Ready));
    assert_eq!(c.liveness, Liveness::Running);
    assert!(c.observe(ChildEvent::KilledBy(9)));
    assert_eq!(c.liveness, Liveness::Crashed(9));
    assert!(!c.observe(ChildEvent::ChannelBroken));
    assert!(!c.observe(ChildEvent::ExitedWith(0)));
    assert_eq!(c.liveness, Liveness::Crashed(9));
    let mut d = ChildHandle::new(78);
    assert!(d.observe(ChildEvent::ExitedWith(3)));
    assert_eq!(d.liveness, Liveness::Exited(3));
    assert_eq!(d.pid, 78);
}

#[test]
fn setup_switches_identity_before_workers() {
    let mut c = Config::new();
    assert_eq!(c.workers, DEFAULT_WORKERS);
    assert_eq!(c.fd_limit, DEFAULT_FD_LIMIT);
    assert_eq!(
        child_setup(&c),
        vec![SetupStep::LimitOpenFiles(DEFAULT_FD_LIMIT), SetupStep::StartWorkers(DEFAULT_WORKERS)]
    );
    c.run_as = Some(Identity { uid: 65534, gid: 65534 });
    c.workers = 8;
    assert_eq!(
        child_setup(&c),
        vec![
            SetupStep::LimitOpenFiles(DEFAULT_FD_LIMIT),
            SetupStep::SwitchIdentity(Identity { uid: 65534, gid: 65534 }),
            SetupStep::StartWorkers(8),
        ]
    );
}
