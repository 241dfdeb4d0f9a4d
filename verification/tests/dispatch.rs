use mio::event::Event;
use mio::unix::pipe;
use mio::Events;
use mio_poll_wrapper::{Handle, PollHandle, PollWrapper, Token};
use std::io::Write;

#[test]
fn tokens_issued_in_callbacks_continue_the_count() {
    let mut wrapper = PollWrapper::new().unwrap();
    let (mut a, _a_end) = pipe::new().unwrap();
    let (mut b_feed, mut b) = pipe::new().unwrap();
    let (mut c, _c_end) = pipe::new().unwrap();
    assert_eq!(wrapper.register(&mut a).unwrap(), Token(0));

    let mut seen: Vec<Token> = Vec::new();
    let mut issued: Vec<Token> = Vec::new();
    let mut handler = |event: &Event, handle: &mut PollHandle| -> Result<(), &'static str> {
        seen.push(Token(event.token().0));
        match seen.len() {
            1 => {
                issued.push(handle.register(&mut b).unwrap());
                b_feed.write_all(b"x").unwrap();
                Ok(())
            }
            2 => {
                b_feed.write_all(b"y").unwrap();
                Ok(())
            }
            _ => {
                issued.push(handle.register(&mut c).unwrap());
                Err("done")
            }
        }
    };

    let mut events = Events::with_capacity(10);
    let mut rounds = 0;
    let stopped = loop {
        rounds += 1;
        assert!(rounds < 10);
        wrapper.reactor().poll(&mut events, None).unwrap();
        if let Err(e) = wrapper.dispatch_batch(&events, &mut handler) {
            break e;
        }
        if rounds == 1 {
            assert_eq!(wrapper.tokens(), &vec![Token(0), Token(1)]);
        }
    };
    assert_eq!(stopped, "done");
    assert_eq!(seen, vec![Token(0), Token(1), Token(1)]);
    assert_eq!(issued, vec![Token(1), Token(2)]);
    // The callback that failed had its token issued but not recorded.
    assert_eq!(wrapper.tokens(), &vec![Token(0), Token(1)]);
}

#[test]
fn first_failure_ends_the_batch() {
    let mut wrapper = PollWrapper::new().unwrap();
    let (mut a, _a_end) = pipe::new().unwrap();
    let (mut b, _b_end) = pipe::new().unwrap();
    wrapper.register(&mut a).unwrap();
    wrapper.register(&mut b).unwrap();

    let mut events = Events::with_capacity(10);
    wrapper.reactor().poll(&mut events, None).unwrap();
    assert_eq!(events.iter().count(), 2);

    let mut calls = 0;
    let res = wrapper.dispatch_batch(&events, &mut |_event: &Event, _handle: &mut PollHandle| {
        calls += 1;
        Err::<(), u32>(7)
    });
    assert_eq!(res, Err(7));
    assert_eq!(calls, 1);
    assert_eq!(wrapper.tokens(), &vec![Token(0), Token(1)]);
}

#[test]
fn every_event_of_a_batch_is_delivered_in_order() {
    let mut wrapper = PollWrapper::new().unwrap();
    let (mut a, _a_end) = pipe::new().unwrap();
    let (mut b, _b_end) = pipe::new().unwrap();
    wrapper.register(&mut a).unwrap();
    wrapper.register(&mut b).unwrap();

    let mut events = Events::with_capacity(10);
    wrapper.reactor().poll(&mut events, None).unwrap();
    let expected: Vec<usize> = events.iter().map(|e| e.token().0).collect();
    assert_eq!(expected.len(), 2);

    let mut seen = Vec::new();
    let res = wrapper.dispatch_batch(&events, &mut |event: &Event, _handle: &mut PollHandle| {
        seen.push(event.token().0);
        Ok::<(), ()>(())
    });
    assert_eq!(res, Ok(()));
    assert_eq!(seen, expected);
}

#[test]
fn empty_batch_calls_nothing() {
    let mut wrapper = PollWrapper::new().unwrap();
    let events = Events::with_capacity(10);
    let mut calls = 0;
    let res = wrapper.dispatch_batch(&events, &mut |_event: &Event, _handle: &mut PollHandle| {
        calls += 1;
        Ok::<(), ()>(())
    });
    assert_eq!(res, Ok(()));
    assert_eq!(calls, 0);
    assert!(wrapper.tokens().is_empty());
}

#[test]
fn successful_callback_merges_its_tokens() {
    let mut wrapper = PollWrapper::new().unwrap();
    let (mut a, _a_end) = pipe::new().unwrap();
    let (mut b, mut c) = pipe::new().unwrap();
    wrapper.register(&mut a).unwrap();

    let mut events = Events::with_capacity(10);
    wrapper.reactor().poll(&mut events, None).unwrap();
    let event = events.iter().next().unwrap();

    let res = wrapper.dispatch(event, &mut |_event: &Event, handle: &mut PollHandle| {
        assert!(handle.has_room());
        assert_eq!(handle.register(&mut b).unwrap(), Token(1));
        assert_eq!(handle.register(&mut c).unwrap(), Token(2));
        Ok::<(), ()>(())
    });
    assert_eq!(res, Ok(()));
    assert_eq!(wrapper.tokens(), &vec![Token(0), Token(1), Token(2)]);

    let (mut d, _d_end) = pipe::new().unwrap();
    assert_eq!(wrapper.register(&mut d).unwrap(), Token(3));
}

#[test]
fn failed_callback_leaves_the_record_alone() {
    let mut wrapper = PollWrapper::new().unwrap();
    let (mut a, _a_end) = pipe::new().unwrap();
    let (mut b, _b_end) = pipe::new().unwrap();
    wrapper.register(&mut a).unwrap();

    let mut events = Events::with_capacity(10);
    wrapper.reactor().poll(&mut events, None).unwrap();
    let event = events.iter().next().unwrap();

    let res = wrapper.dispatch(event, &mut |_event: &Event, handle: &mut PollHandle| {
        assert_eq!(handle.register(&mut b).unwrap(), Token(1));
        Err::<(), &'static str>("stop")
    });
    assert_eq!(res, Err("stop"));
    assert_eq!(wrapper.tokens(), &vec![Token(0)]);

    // The token that the failed callback used is not handed out again.
    let (mut c, _c_end) = pipe::new().unwrap();
    assert_eq!(wrapper.register(&mut c).unwrap(), Token(2));
    assert_eq!(wrapper.tokens(), &vec![Token(0), Token(2)]);
}

#[test]
fn rejected_source_in_callback_issues_no_token() {
    let mut wrapper = PollWrapper::new().unwrap();
    let (mut a, mut a_end) = pipe::new().unwrap();
    wrapper.register(&mut a).unwrap();
    wrapper.register(&mut a_end).unwrap();

    let mut events = Events::with_capacity(10);
    wrapper.reactor().poll(&mut events, None).unwrap();
    let event = events.iter().next().unwrap();

    let (mut b, _b_end) = pipe::new().unwrap();
    let res = wrapper.dispatch(event, &mut |_event: &Event, handle: &mut PollHandle| {
        assert!(handle.register(&mut a_end).is_err());
        assert_eq!(handle.register(&mut b).unwrap(), Token(2));
        Ok::<(), ()>(())
    });
    assert_eq!(res, Ok(()));
    assert_eq!(wrapper.tokens(), &vec![Token(0), Token(1), Token(2)]);
}
