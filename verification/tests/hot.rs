use pm64::hot::{is_ping, Action, Event, Outcome, Packet, Phase, Server};

#[test]
fn packets_have_a_sixteen_byte_head() {
    let bytes = Packet::hot_bgm(&[0xAA, 0xBB]).to_bytes();
    let mut expected = b"HOT_BGM".to_vec();
    expected.resize(16, 0);
    expected.extend_from_slice(&[0, 0, 0, 2, 0xAA, 0xBB]);
    assert_eq!(bytes, expected);

    let ping = Packet::ping().to_bytes();
    assert_eq!(&ping[..4], b"PING");
    assert_eq!(ping.len(), 20);
    assert!(ping[4..].iter().all(|&b| b == 0));

    let pong = Packet::pong().to_bytes();
    assert_eq!(&pong[16..], &[0, 0, 0, 3, 1, 0, 0]);
}

#[test]
fn handshake_reply_must_be_ping() {
    assert!(is_ping("PING"));
    assert!(!is_ping("PONG"));
    assert!(!is_ping("PING "));
    assert!(!is_ping(""));
}

fn run(server: &mut Server, events: Vec<Event>) -> Vec<Action> {
    let mut actions = Vec::new();
    for e in events {
        assert!(server.answers(&e));
        actions.push(server.step(e));
    }
    actions
}

#[test]
fn server_handshake_then_song_then_close() {
    let (mut server, first) = Server::start();
    assert_eq!(first, Action::Notify(false));
    let actions = run(
        &mut server,
        vec![
            Event::Done,
            Event::Accepted,
            Event::Sent(Outcome::Done),
            Event::Reply(Some("PING".to_string())),
            Event::Sent(Outcome::Done),
            Event::Done,
            Event::Done,
            Event::Probed(Outcome::WouldBlock),
            Event::Song,
            Event::Sent(Outcome::Interrupted),
            Event::Probed(Outcome::Done),
            Event::Timeout,
            Event::Probed(Outcome::Done),
            Event::Closed,
            Event::Done,
        ],
    );
    assert_eq!(
        actions,
        vec![
            Action::Accept,
            Action::SendPing,
            Action::ReadReply,
            Action::SendPong,
            Action::Notify(true),
            Action::SetNonblocking,
            Action::Probe,
            Action::Receive,
            Action::SendSong,
            Action::Probe,
            Action::Receive,
            Action::Probe,
            Action::Receive,
            Action::Notify(false),
            Action::Stop { failed: false },
        ]
    );
    assert_eq!(server.phase, Phase::Stopped);
    assert!(!server.answers(&Event::Done));
}

#[test]
fn server_failures_go_back_to_listening() {
    let (mut server, _) = Server::start();
    let actions = run(
        &mut server,
        vec![Event::Done, Event::Accepted, Event::Sent(Outcome::Done), Event::Reply(Some("HELLO".to_string()))],
    );
    assert_eq!(actions.last(), Some(&Action::Notify(false)));
    assert_eq!(server.phase, Phase::Idle);

    let actions = run(&mut server, vec![Event::Done, Event::Accepted, Event::Sent(Outcome::Failed)]);
    assert_eq!(actions.last(), Some(&Action::Notify(false)));

    let actions = run(
        &mut server,
        vec![
            Event::Done,
            Event::Accepted,
            Event::Sent(Outcome::Done),
            Event::Reply(None),
        ],
    );
    assert_eq!(actions.last(), Some(&Action::Notify(false)));

    let _ = run(
        &mut server,
        vec![
            Event::Done,
            Event::Accepted,
            Event::Sent(Outcome::Done),
            Event::Reply(Some("PING".to_string())),
            Event::Sent(Outcome::Done),
            Event::Done,
            Event::Done,
        ],
    );
    let actions = run(&mut server, vec![Event::Probed(Outcome::Failed)]);
    assert_eq!(actions, vec![Action::Notify(false)]);
    assert_eq!(server.phase, Phase::Idle);
}

#[test]
fn server_stops_when_accepting_fails() {
    let (mut server, _) = Server::start();
    let actions = run(&mut server, vec![Event::Done, Event::AcceptFailed]);
    assert_eq!(actions, vec![Action::Accept, Action::Stop { failed: true }]);
    assert!(!server.answers(&Event::Accepted));
}

#[test]
fn events_out_of_turn_are_not_answers() {
    let (server, _) = Server::start();
    assert!(!server.answers(&Event::Song));
    assert!(!server.answers(&Event::Sent(Outcome::Done)));
}
