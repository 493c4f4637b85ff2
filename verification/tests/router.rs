use adapter::comms::result::SendResult;
use adapter::comms::routes::{Command, Request, Router, RouterAction, RouterEvent};
use adapter::relay::Relay;
use adapter::words::words_to_bytes;

fn frame(kind: u8, payload: &[u8]) -> Vec<u8> {
    let mut f = vec![0xAA, 0x55, kind, payload.len() as u8];
    f.extend_from_slice(payload);
    let sum = f[2..].iter().fold(0u8, |a, b| a ^ b);
    f.push(sum);
    f
}

fn with_peer() -> Relay {
    let mut relay = Relay::new();
    relay.feed(&frame(1, &words_to_bytes(&[0x77, 1, 2, 3, 4, 5, 6])));
    relay
}

fn request(command: u8) -> RouterEvent {
    RouterEvent::Request(SendResult::Data(Request {
        command,
        is_response: false,
        raw: vec![0x9966_0000 | command as u32],
    }))
}

fn started(relay: &mut Relay) -> Router {
    let mut router = Router::new();
    assert_eq!(router.run(relay, RouterEvent::Done), RouterAction::ResetLink);
    assert_eq!(router.run(relay, RouterEvent::Done), RouterAction::Login);
    assert_eq!(router.run(relay, RouterEvent::Done), RouterAction::RecvReq);
    router
}

fn ask(router: &mut Router, relay: &mut Relay, command: u8) -> Vec<u32> {
    assert_eq!(
        router.run(relay, request(command)),
        RouterAction::Mirror(vec![0x9966_0000 | command as u32])
    );
    let reply = match router.run(relay, RouterEvent::Done) {
        RouterAction::Reply { words, len } => words[..len].to_vec(),
        other => panic!("{:?}", other),
    };
    assert_eq!(router.run(relay, RouterEvent::Sent(SendResult::Data(()))), RouterAction::PollRelay);
    assert_eq!(router.run(relay, RouterEvent::Done), RouterAction::RecvReq);
    reply
}

#[test]
fn command_codes() {
    let table = [
        (0x00u8, Command::NoCommand),
        (0x10, Command::Init1),
        (0x3d, Command::Init2),
        (0x11, Command::Unknown),
        (0x13, Command::GetSomeValue),
        (0x16, Command::Broadcast),
        (0x17, Command::Setup),
        (0x19, Command::StartHost),
        (0x1a, Command::AcceptConnections),
        (0x1b, Command::EndHost),
        (0x1c, Command::BroadcastReadStart),
        (0x1d, Command::BroadcastReadPoll),
        (0x1e, Command::BroadcastReadEnd),
        (0x1f, Command::Connect),
        (0x20, Command::IsConnecting),
        (0x21, Command::FinishConnecting),
        (0x24, Command::SendData),
        (0x25, Command::SendDataAndWait),
        (0x26, Command::ReceiveData),
        (0x27, Command::ReceiveDataAndWait),
        (0x28, Command::ReceiveDataAndWaitResponse),
    ];
    for b in 0..=255u8 {
        let expected = table.iter().find(|e| e.0 == b).map(|e| e.1).unwrap_or(Command::NoCommand);
        assert_eq!(Command::from(b), expected);
    }
    for (b, c) in table {
        assert_eq!(u8::from(c), b);
    }
}

#[test]
fn some_value_alternates() {
    let mut relay = Relay::new();
    let mut router = started(&mut relay);
    assert_eq!(ask(&mut router, &mut relay, 0x13), vec![0x0200abcd]);
    assert_eq!(ask(&mut router, &mut relay, 0x13), vec![0]);
    assert_eq!(ask(&mut router, &mut relay, 0x11), vec![0xff]);
    assert_eq!(ask(&mut router, &mut relay, 0x13), vec![0x0200abcd]);
}

#[test]
fn plain_commands_get_an_empty_reply() {
    let mut relay = with_peer();
    let mut router = started(&mut relay);
    for c in [0x00u8, 0x10, 0x3d, 0x16, 0x17, 0x19, 0x1a, 0x1b, 0x1c, 0x1f, 0x24, 0x99] {
        assert_eq!(ask(&mut router, &mut relay, c), Vec::<u32>::new());
    }
}

#[test]
fn alone_everything_is_empty() {
    let mut relay = Relay::new();
    let mut router = started(&mut relay);
    for c in [0x1du8, 0x1e, 0x20, 0x21, 0x26, 0x28] {
        assert_eq!(ask(&mut router, &mut relay, c), Vec::<u32>::new());
    }
}

#[test]
fn peer_is_found() {
    let mut relay = with_peer();
    let mut router = started(&mut relay);
    assert_eq!(ask(&mut router, &mut relay, 0x1d), vec![0x77, 1, 2, 3, 4, 5, 6]);
    assert_eq!(ask(&mut router, &mut relay, 0x1e), vec![0x77, 1, 2, 3, 4, 5, 6]);
}

#[test]
fn connection_takes_three_polls() {
    let mut relay = with_peer();
    let mut router = started(&mut relay);
    for _ in 0..2 {
        ask(&mut router, &mut relay, 0x1f);
        assert_eq!(ask(&mut router, &mut relay, 0x20), vec![0x01000000]);
        assert_eq!(ask(&mut router, &mut relay, 0x20), vec![0x01000000]);
        assert_eq!(ask(&mut router, &mut relay, 0x21), vec![0x01000000]);
        assert_eq!(ask(&mut router, &mut relay, 0x20), vec![0x77]);
        assert_eq!(ask(&mut router, &mut relay, 0x21), vec![0x77]);
    }
}

#[test]
fn slot_is_received_once_and_as_far_as_it_fits() {
    let mut relay = Relay::new();
    let mut router = started(&mut relay);
    relay.feed(&frame(2, &words_to_bytes(&[1, 2, 3, 4, 5, 6, 7, 8, 9, 10])));
    assert_eq!(ask(&mut router, &mut relay, 0x26), vec![1, 2, 3, 4, 5, 6, 7, 8]);
    assert_eq!(ask(&mut router, &mut relay, 0x26), Vec::<u32>::new());
    relay.feed(&frame(2, &words_to_bytes(&[42])));
    assert_eq!(ask(&mut router, &mut relay, 0x28), vec![42]);
}

#[test]
fn clock_changes_are_acknowledged() {
    let mut relay = Relay::new();
    let mut router = started(&mut relay);
    for c in [0x25u8, 0x27] {
        assert_eq!(
            router.run(&mut relay, request(c)),
            RouterAction::Mirror(vec![0x9966_0000 | c as u32])
        );
        assert_eq!(router.run(&mut relay, RouterEvent::Done), RouterAction::AsyncAck);
        assert_eq!(
            router.run(&mut relay, RouterEvent::Sent(SendResult::Data(()))),
            RouterAction::PollRelay
        );
        assert_eq!(router.run(&mut relay, RouterEvent::Done), RouterAction::RecvReq);
    }
}

#[test]
fn responses_are_ignored() {
    let mut relay = Relay::new();
    let mut router = started(&mut relay);
    let event = RouterEvent::Request(SendResult::Data(Request {
        command: 0x13,
        is_response: true,
        raw: vec![1, 2],
    }));
    assert_eq!(router.run(&mut relay, event), RouterAction::PollRelay);
    assert_eq!(router.run(&mut relay, RouterEvent::Done), RouterAction::RecvReq);
    assert_eq!(ask(&mut router, &mut relay, 0x13), vec![0x0200abcd]);
}

#[test]
fn reset_leads_to_a_new_login_and_drops_the_connection() {
    let mut relay = with_peer();
    let mut router = started(&mut relay);
    for _ in 0..4 {
        ask(&mut router, &mut relay, 0x20);
    }
    assert_eq!(ask(&mut router, &mut relay, 0x20), vec![0x77]);
    let reset = RouterEvent::Request(SendResult::Reset);
    assert_eq!(router.run(&mut relay, reset), RouterAction::ResetLink);
    assert_eq!(router.run(&mut relay, RouterEvent::Done), RouterAction::Login);
    assert_eq!(router.run(&mut relay, RouterEvent::Done), RouterAction::RecvReq);
    assert_eq!(ask(&mut router, &mut relay, 0x20), vec![0x01000000]);
    router.run(&mut relay, request(0x10));
    router.run(&mut relay, RouterEvent::Done);
    let reset = RouterEvent::Sent(SendResult::Reset);
    assert_eq!(router.run(&mut relay, reset), RouterAction::ResetLink);
    assert_eq!(router.run(&mut relay, RouterEvent::Done), RouterAction::Login);
}

#[test]
fn reset_at_a_request_is_only_passed_on() {
    let mut relay = with_peer();
    let mut router = started(&mut relay);
    let mut out = [0u32; 8];
    for _ in 0..4 {
        router.local_respond(&mut relay, Command::IsConnecting, &mut out);
    }
    assert_eq!(router.handle_req(SendResult::Reset), SendResult::Reset);
    router.local_respond(&mut relay, Command::IsConnecting, &mut out);
    assert_eq!(out[0], 0x77);
    assert_eq!(router.reset(), RouterAction::ResetLink);
    router.local_respond(&mut relay, Command::IsConnecting, &mut out);
    assert_eq!(out[0], 0x01000000);
}

#[test]
fn requests_and_responses_are_taken_in() {
    let mut router = Router::new();
    let req = Request { command: 0x10, is_response: false, raw: vec![1, 2] };
    let mirror = SendResult::Data(RouterAction::Mirror(vec![1, 2]));
    assert_eq!(router.handle_req(SendResult::Data(req)), mirror);
    let res = Request { command: 0x10, is_response: true, raw: vec![3] };
    let poll = SendResult::Data(RouterAction::PollRelay);
    assert_eq!(router.handle_req(SendResult::Data(res)), poll);
}

#[test]
fn some_value_alternates_across_other_commands_and_resets() {
    let mut relay = with_peer();
    let mut router = started(&mut relay);
    assert_eq!(ask(&mut router, &mut relay, 0x13), vec![0x0200abcd]);
    ask(&mut router, &mut relay, 0x1f);
    ask(&mut router, &mut relay, 0x20);
    router.run(&mut relay, RouterEvent::Request(SendResult::Reset));
    router.run(&mut relay, RouterEvent::Done);
    router.run(&mut relay, RouterEvent::Done);
    assert_eq!(ask(&mut router, &mut relay, 0x13), vec![0]);
}

#[test]
fn connecting_counts_only_polls_that_find_a_partner() {
    let mut relay = with_peer();
    let mut router = started(&mut relay);
    assert_eq!(ask(&mut router, &mut relay, 0x20), vec![0x01000000]);
    relay.feed(&frame(0, &[]));
    assert_eq!(ask(&mut router, &mut relay, 0x20), Vec::<u32>::new());
    ask(&mut router, &mut relay, 0x13);
    relay.feed(&frame(1, &words_to_bytes(&[0x88, 1, 2, 3, 4, 5, 6])));
    assert_eq!(ask(&mut router, &mut relay, 0x21), vec![0x01000000]);
    assert_eq!(ask(&mut router, &mut relay, 0x20), vec![0x01000000]);
    assert_eq!(ask(&mut router, &mut relay, 0x20), vec![0x88]);
}

#[test]
fn answers_go_to_the_front_of_the_buffer() {
    let mut relay = with_peer();
    let mut router = Router::new();
    let mut out = [9u32; 3];
    assert_eq!(router.local_respond(&mut relay, Command::Unknown, &mut out), 1);
    assert_eq!(out, [0xff, 9, 9]);
    assert_eq!(router.local_respond(&mut relay, Command::BroadcastReadPoll, &mut out), 0);
    assert_eq!(out, [0xff, 9, 9]);
}
