use mio::unix::pipe;
use mio_poll_wrapper::handle::{issue, settle};
use mio_poll_wrapper::{Handle, PollWrapper, Token};

#[test]
fn new_wrapper_has_no_tokens() {
    let wrapper = PollWrapper::new().unwrap();
    assert!(wrapper.tokens().is_empty());
    assert!(wrapper.has_room());
}

#[test]
fn first_registration_gets_token_zero() {
    let mut wrapper = PollWrapper::new().unwrap();
    let (mut sender, _receiver) = pipe::new().unwrap();
    let token = wrapper.register(&mut sender).unwrap();
    assert_eq!(token, Token(0));
    assert_eq!(wrapper.tokens(), &vec![Token(0)]);
}

#[test]
fn tokens_count_up_in_call_order() {
    let mut wrapper = PollWrapper::new().unwrap();
    let (mut a, mut b) = pipe::new().unwrap();
    let (mut c, mut d) = pipe::new().unwrap();
    let t0 = wrapper.register(&mut a).unwrap();
    let t1 = wrapper.register(&mut b).unwrap();
    let t2 = wrapper.register(&mut c).unwrap();
    let t3 = wrapper.register(&mut d).unwrap();
    assert_eq!((t0, t1, t2, t3), (Token(0), Token(1), Token(2), Token(3)));
    assert!(t0.0 < t1.0 && t1.0 < t2.0 && t2.0 < t3.0);
    assert_eq!(wrapper.tokens(), &vec![Token(0), Token(1), Token(2), Token(3)]);
}

#[test]
fn tokens_are_pairwise_distinct() {
    let mut wrapper = PollWrapper::new().unwrap();
    let mut pipes = Vec::new();
    for _ in 0..8 {
        pipes.push(pipe::new().unwrap());
    }
    for (sender, receiver) in pipes.iter_mut() {
        wrapper.register(sender).unwrap();
        wrapper.register(receiver).unwrap();
    }
    let tokens = wrapper.tokens();
    assert_eq!(tokens.len(), 16);
    for i in 0..tokens.len() {
        for j in 0..tokens.len() {
            if i != j {
                assert_ne!(tokens[i], tokens[j]);
            }
        }
    }
}

#[test]
fn rejected_source_issues_no_token() {
    let mut wrapper = PollWrapper::new().unwrap();
    let (mut sender, mut receiver) = pipe::new().unwrap();
    assert_eq!(wrapper.register(&mut sender).unwrap(), Token(0));
    // A source that is registered already is rejected by the reactor.
    let rejected = wrapper.register(&mut sender);
    assert!(rejected.is_err());
    assert_eq!(wrapper.tokens(), &vec![Token(0)]);
    // No value of the counter was skipped.
    assert_eq!(wrapper.register(&mut receiver).unwrap(), Token(1));
    assert_eq!(wrapper.tokens(), &vec![Token(0), Token(1)]);
}

#[test]
fn creation_failure_is_handed_on() {
    let cause = std::io::Error::new(std::io::ErrorKind::OutOfMemory, "no selector");
    match PollWrapper::assemble(Err(cause)) {
        Ok(_) => panic!("a dispatcher without a reactor"),
        Err(e) => {
            assert_eq!(e.cause.kind(), std::io::ErrorKind::OutOfMemory);
            assert_eq!(format!("{}", e.cause), "no selector");
        }
    }
}

#[test]
fn assemble_starts_empty() {
    let wrapper = PollWrapper::assemble(mio::Poll::new()).unwrap();
    assert!(wrapper.tokens().is_empty());
}

#[test]
fn issue_reads_then_increments() {
    let mut counter: usize = 41;
    assert_eq!(issue(&mut counter), Token(41));
    assert_eq!(counter, 42);
    assert_eq!(issue(&mut counter), Token(42));
    assert_eq!(counter, 43);
}

#[test]
fn settle_issues_only_accepted_tokens() {
    let mut counter: usize = 5;
    let mut tokens = vec![Token(3)];
    assert_eq!(settle(&mut counter, &mut tokens, Ok(())).unwrap(), Token(5));
    assert_eq!(counter, 6);
    assert_eq!(tokens, vec![Token(3), Token(5)]);
    let cause = std::io::Error::new(std::io::ErrorKind::AlreadyExists, "twice");
    let err = settle(&mut counter, &mut tokens, Err(cause)).unwrap_err();
    assert_eq!(err.cause.kind(), std::io::ErrorKind::AlreadyExists);
    assert_eq!(counter, 6);
    assert_eq!(tokens, vec![Token(3), Token(5)]);
    assert_eq!(settle(&mut counter, &mut tokens, Ok(())).unwrap(), Token(6));
}
