use fraud_detection_api::connection::{Action, ClientState, Event};
use fraud_detection_api::http::{
    fraud_response, respond, Request, ResponseKind, BAD_REQUEST_RESPONSE, MAX_HTTP_BYTES,
    READY_RESPONSE,
};
use fraud_detection_api::server::{
    drain_step, drop_client, event_target, received_message, register_client, DrainStep,
    FdMessage, Target,
};

const READABLE: Event<'static> = Event::Woken {
    hangup: false,
    readable: true,
    writable: false,
};
const WRITABLE: Event<'static> = Event::Woken {
    hangup: false,
    readable: false,
    writable: true,
};
const BODY: &str = r#"{"transaction":{"amount":1,"installments":1,"requested_at":"t"},"customer":{"avg_amount":2,"tx_count_24h":1,"known_merchants":[]},"merchant":{"id":"M","mcc":"1","avg_amount":3},"terminal":{"is_online":true,"card_present":false,"km_from_home":4}}"#;

#[test]
fn a_request_may_come_in_pieces() {
    let request = format!(
        "POST /fraud-score HTTP/1.1\r\nContent-Length: {}\r\n\r\n{}",
        BODY.len(),
        BODY
    )
    .into_bytes();
    for size in 1..request.len() {
        let mut client = ClientState::new(4);
        let mut seen = 0;
        for piece in request.chunks(size) {
            assert_eq!(client.step(READABLE), Action::Read);
            assert_eq!(client.step(Event::Data(piece)), Action::Read);
            seen += piece.len();
            assert_eq!(client.try_finalize_request(), seen == request.len());
            let expected = if seen == request.len() {
                Action::Answer
            } else {
                Action::ArmRead
            };
            assert_eq!(client.step(Event::NothingToRead), expected);
            if expected == Action::ArmRead {
                assert_eq!(client.step(Event::Armed), Action::Wait);
            }
        }
        assert_eq!(client.room(), MAX_HTTP_BYTES - request.len());
        assert!(matches!(client.request(), Request::Score(_)));
        let kind = respond(&client.request(), 3);
        assert_eq!(client.step(Event::Answered(kind)), Action::ArmWrite);
        assert_eq!(client.pending(), fraud_response(3).as_bytes());
    }
}

#[test]
fn a_response_may_go_in_pieces() {
    let mut client = ClientState::new(4);
    assert_eq!(client.step(READABLE), Action::Read);
    assert_eq!(
        client.step(Event::Data(b"GET /ready HTTP/1.1\r\n\r\n")),
        Action::Read
    );
    assert_eq!(client.step(Event::NothingToRead), Action::Answer);
    let kind = respond(&client.request(), 0);
    assert_eq!(client.step(Event::Answered(kind)), Action::ArmWrite);
    assert_eq!(client.step(Event::Armed), Action::Wait);
    let mut sent = Vec::new();
    assert_eq!(client.step(WRITABLE), Action::Write);
    loop {
        let piece = client.pending().len().min(10);
        sent.extend_from_slice(&client.pending()[..piece]);
        if client.step(Event::Written(piece)) == Action::Close {
            break;
        }
        assert_eq!(client.step(Event::CannotWrite), Action::ArmWrite);
        assert_eq!(client.step(Event::Armed), Action::Wait);
        assert_eq!(client.step(READABLE), Action::Wait);
        assert_eq!(client.step(WRITABLE), Action::Write);
    }
    assert_eq!(sent, READY_RESPONSE.as_bytes());
    assert!(client.pending().is_empty());
}

#[test]
fn a_response_may_go_at_once() {
    let mut client = ClientState::new(4);
    let both = Event::Woken {
        hangup: false,
        readable: true,
        writable: true,
    };
    assert_eq!(client.step(both), Action::Read);
    assert_eq!(client.step(Event::Data(b"x\r\n\r\n")), Action::Read);
    assert_eq!(client.step(Event::NothingToRead), Action::Answer);
    let kind = respond(&client.request(), 0);
    assert_eq!(client.step(Event::Answered(kind)), Action::ArmWrite);
    assert_eq!(client.step(Event::Armed), Action::Write);
    assert_eq!(client.pending(), BAD_REQUEST_RESPONSE.as_bytes());
    let all = client.pending().len();
    assert_eq!(client.step(Event::Written(all)), Action::Close);
}

#[test]
fn a_request_that_does_not_fit_is_dropped() {
    let mut client = ClientState::new(4);
    let bytes = vec![b'x'; MAX_HTTP_BYTES - 1];
    assert_eq!(client.step(Event::Data(&bytes)), Action::Read);
    assert_eq!(client.step(Event::NothingToRead), Action::ArmRead);
    assert_eq!(client.step(Event::Data(b"x")), Action::Close);
    assert_eq!(client.room(), 0);
}

#[test]
fn a_request_that_just_fits_is_answered() {
    let mut client = ClientState::new(4);
    let mut bytes = b"GET /ready HTTP/1.1\r\nX: ".to_vec();
    bytes.resize(MAX_HTTP_BYTES - 4, b'x');
    bytes.extend_from_slice(b"\r\n\r\n");
    assert_eq!(client.step(Event::Data(&bytes)), Action::Answer);
}

#[test]
fn connections_that_end_badly() {
    let mut client = ClientState::new(4);
    assert_eq!(client.fd(), 4);
    assert_eq!(client.step(Event::ReadFailed), Action::Fail);
    assert_eq!(client.step(Event::WriteFailed), Action::Fail);
    assert_eq!(client.step(WRITABLE), Action::Wait);
    let mut gone = ClientState::new(5);
    let hangup = Event::Woken {
        hangup: true,
        readable: true,
        writable: true,
    };
    assert_eq!(gone.step(hangup), Action::Close);
    let mut closed = ClientState::new(6);
    assert_eq!(closed.step(Event::PeerClosed), Action::ArmRead);
    assert_eq!(closed.step(Event::Armed), Action::Close);
    let mut answered = ClientState::new(7);
    answered.step(Event::Data(b"GET /ready HTTP/1.1\r\n\r\n"));
    assert_eq!(answered.step(Event::PeerClosed), Action::Answer);
    assert_eq!(
        answered.step(Event::Answered(ResponseKind::Ready)),
        Action::ArmWrite
    );
    assert_eq!(answered.step(Event::Armed), Action::Close);
}

#[test]
fn clients_have_the_slot_of_their_descriptor() {
    let mut clients: Vec<Option<ClientState>> = Vec::new();
    register_client(&mut clients, 3);
    assert_eq!(clients.len(), 4);
    assert!(clients[0].is_none() && clients[2].is_none());
    assert_eq!(clients[3].as_ref().unwrap().fd(), 3);
    register_client(&mut clients, 1);
    assert_eq!(clients.len(), 4);
    assert!(clients[1].is_some() && clients[3].is_some());
    assert_eq!(event_target(9, 9, true, &clients), Target::Listener);
    assert_eq!(event_target(3, 9, true, &clients), Target::Upstream);
    assert_eq!(event_target(3, 9, false, &clients), Target::Client(3));
    assert_eq!(event_target(2, 9, false, &clients), Target::Nobody);
    assert_eq!(event_target(-1, 9, false, &clients), Target::Nobody);
    assert_eq!(event_target(100, 9, false, &clients), Target::Nobody);
    drop_client(&mut clients, 3);
    drop_client(&mut clients, 77);
    assert!(clients[3].is_none() && clients[1].is_some());
}

#[test]
fn messages_of_the_balancer() {
    assert_eq!(received_message(1, false, Some(5)), FdMessage::Received(5));
    assert_eq!(received_message(1, false, None), FdMessage::Broken);
    assert_eq!(received_message(0, false, Some(5)), FdMessage::Closed);
    assert_eq!(received_message(-1, true, None), FdMessage::WouldBlock);
    assert_eq!(received_message(-1, false, None), FdMessage::Broken);
    assert_eq!(drain_step(FdMessage::Received(5)), DrainStep::Register(5));
    assert_eq!(drain_step(FdMessage::WouldBlock), DrainStep::Stop);
    assert_eq!(drain_step(FdMessage::Closed), DrainStep::CloseUpstream);
    assert_eq!(drain_step(FdMessage::Broken), DrainStep::CloseUpstream);
}
