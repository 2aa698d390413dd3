//! Packets of the hot-reload protocol, by which songs are sent to a running emulator.

use vstd::prelude::*;

use crate::rw::{cstring_field, u32_bytes, WriteExt, Writer};

verus! {

/// A message and its data.
pub struct Packet<'a> {
    pub message: &'a str,
    pub data: &'a [u8],
}

/// The bytes of a packet: its message in a 16-byte field, the length of its data on 32 bits,
/// and the data.
pub open spec fn packet_bytes(message: Seq<char>, data: Seq<u8>) -> Seq<u8> {
    cstring_field(message, 16) + u32_bytes((data.len() % 0x1_0000_0000) as u32) + data
}

impl<'a> Packet<'a> {
    /// The packet that asks a client to play a song.
    pub fn hot_bgm(bgm_data: &'a [u8]) -> (r: Packet<'a>)
        ensures
            r.message@ == "HOT_BGM"@,
            r.data@ == bgm_data@,
    {
        Packet { message: "HOT_BGM", data: bgm_data }
    }

    /// The handshake packet.
    pub fn ping() -> (r: Packet<'static>)
        ensures
            r.message@ == "PING"@,
            r.data@ == Seq::<u8>::empty(),
    {
        let empty: &'static [u8] = &[];
        Packet { message: "PING", data: empty }
    }

    /// The answer to a handshake.
    pub fn pong() -> (r: Packet<'static>)
        ensures
            r.message@ == "PONG"@,
            r.data@ == seq![1u8, 0u8, 0u8],
    {
        let data: &'static [u8] = &[1, 0, 0];
        assert(data@ == seq![1u8, 0u8, 0u8]);
        Packet { message: "PONG", data }
    }

    /// The bytes to send in one write, so that the head of the packet travels in a single TCP
    /// packet.
    pub fn to_bytes(&self) -> (r: Vec<u8>)
        requires
            self.data@.len() + 20 <= usize::MAX,
        ensures
            r@ == packet_bytes(self.message@, self.data@),
    {
        let mut w = Writer::new();
        let _ = w.write_cstring_lossy(self.message, 16);
        let _ = w.write_u32_be((self.data.len() as u64 % 0x1_0000_0000) as u32);
        let _ = w.write_all(self.data);
        let r = w.into_inner();
        assert(r@ =~= packet_bytes(self.message@, self.data@));
        r
    }
}

/// Whether a client's handshake reply is the expected "PING".
pub fn is_ping(reply: &str) -> (r: bool)
    ensures
        r == (reply@ == "PING"@),
{
    let expected = String::from_str("PING");
    let got = String::from_str(reply);
    got == expected
}

/// Where the server stands between two actions.
#[derive(Clone, Copy, PartialEq, Eq, Debug, Structural)]
pub enum Phase {
    /// No client; the editor was told so.
    Idle,
    /// Waiting for a client to connect.
    Accepting,
    /// Sending the handshake PING.
    Greeting,
    /// Waiting for the client's PING.
    AwaitingReply,
    /// Sending the PONG that completes the handshake.
    Answering,
    /// Handshake done; the editor was told that a client is connected.
    Connected,
    /// Switching the connection to non-blocking reads.
    Switching,
    /// Checking that the client is still there.
    Probing,
    /// Waiting for a song to send.
    Receiving,
    /// Sending a song.
    SendingSong,
    /// The song channel closed; the editor was told that no client is connected.
    Closing,
    /// Done.
    Stopped,
}

/// How an attempt to read from or write to the client ended.
#[derive(Clone, Copy, PartialEq, Eq, Debug, Structural)]
pub enum Outcome {
    Done,
    Interrupted,
    WouldBlock,
    Failed,
}

/// What the server asks to be done next.
#[derive(Clone, Copy, PartialEq, Eq, Debug, Structural)]
pub enum Action {
    /// Tell the editor whether a client is connected.
    Notify(bool),
    /// Wait for a client to connect.
    Accept,
    /// Send [`Packet::ping`] to the client.
    SendPing,
    /// Send [`Packet::pong`] to the client.
    SendPong,
    /// Send the song that arrived, as [`Packet::hot_bgm`].
    SendSong,
    /// Read the client's reply: a C string of at most 16 bytes.
    ReadReply,
    /// Make reads from the client non-blocking.
    SetNonblocking,
    /// Read from the client and throw the data away, to learn whether it is still there.
    Probe,
    /// Wait up to half a second for a song to send.
    Receive,
    /// Stop; `failed` when accepting a client failed.
    Stop { failed: bool },
}

/// What came of the last action.
#[derive(Clone, Debug, PartialEq, Eq)]
pub enum Event {
    /// A notification or a mode switch was made.
    Done,
    /// A client connected.
    Accepted,
    /// Waiting for a client failed.
    AcceptFailed,
    /// A packet was sent, or not.
    Sent(Outcome),
    /// The client's reply, or `None` where it could not be read.
    Reply(Option<String>),
    /// The probe's outcome.
    Probed(Outcome),
    /// A song arrived.
    Song,
    /// No song arrived in time.
    Timeout,
    /// The channel of songs was closed.
    Closed,
}

/// The server's next phase and action after `event`, or `None` where `event` is no answer to
/// the action that `phase` was entered with. A failed handshake, probe or send goes back to
/// waiting for a client; a song is sent only to a client that completed the handshake.
pub open spec fn server_step(phase: Phase, event: Event) -> Option<(Phase, Action)> {
    let back = Some((Phase::Idle, Action::Notify(false)));
    match (phase, event) {
        (Phase::Idle, Event::Done) => Some((Phase::Accepting, Action::Accept)),
        (Phase::Accepting, Event::Accepted) => Some((Phase::Greeting, Action::SendPing)),
        (Phase::Accepting, Event::AcceptFailed) => Some((Phase::Stopped, Action::Stop { failed: true })),
        (Phase::Greeting, Event::Sent(o)) => if o == Outcome::Done {
            Some((Phase::AwaitingReply, Action::ReadReply))
        } else {
            back
        },
        (Phase::AwaitingReply, Event::Reply(r)) => if r matches Some(s) && s@ == "PING"@ {
            Some((Phase::Answering, Action::SendPong))
        } else {
            back
        },
        (Phase::Answering, Event::Sent(o)) => if o == Outcome::Done {
            Some((Phase::Connected, Action::Notify(true)))
        } else {
            back
        },
        (Phase::Connected, Event::Done) => Some((Phase::Switching, Action::SetNonblocking)),
        (Phase::Switching, Event::Done) => Some((Phase::Probing, Action::Probe)),
        (Phase::Probing, Event::Probed(o)) => if o == Outcome::Failed {
            back
        } else {
            Some((Phase::Receiving, Action::Receive))
        },
        (Phase::Receiving, Event::Song) => Some((Phase::SendingSong, Action::SendSong)),
        (Phase::Receiving, Event::Timeout) => Some((Phase::Probing, Action::Probe)),
        (Phase::Receiving, Event::Closed) => Some((Phase::Closing, Action::Notify(false))),
        (Phase::SendingSong, Event::Sent(o)) => if o == Outcome::Done || o == Outcome::Interrupted {
            Some((Phase::Probing, Action::Probe))
        } else {
            back
        },
        (Phase::Closing, Event::Done) => Some((Phase::Stopped, Action::Stop { failed: false })),
        _ => None,
    }
}

/// Whether a client that completed the handshake is connected in `phase`.
pub open spec fn client_connected(phase: Phase) -> bool {
    match phase {
        Phase::Connected | Phase::Switching | Phase::Probing | Phase::Receiving | Phase::SendingSong => true,
        _ => false,
    }
}

/// The hot-reload server's decisions: the loop that runs it performs each [`Action`] and hands
/// back what came of it.
pub struct Server {
    pub phase: Phase,
}

impl Server {
    /// A server that first tells the editor that no client is connected.
    pub fn start() -> (r: (Server, Action))
        ensures
            r.0.phase == Phase::Idle,
            r.1 == Action::Notify(false),
    {
        (Server { phase: Phase::Idle }, Action::Notify(false))
    }

    /// Whether `event` answers the action that the current phase was entered with.
    pub fn answers(&self, event: &Event) -> (r: bool)
        ensures
            r == server_step(self.phase, *event) is Some,
    {
        match (self.phase, event) {
            (Phase::Idle, Event::Done) => true,
            (Phase::Accepting, Event::Accepted) => true,
            (Phase::Accepting, Event::AcceptFailed) => true,
            (Phase::Greeting, Event::Sent(_)) => true,
            (Phase::AwaitingReply, Event::Reply(_)) => true,
            (Phase::Answering, Event::Sent(_)) => true,
            (Phase::Connected, Event::Done) => true,
            (Phase::Switching, Event::Done) => true,
            (Phase::Probing, Event::Probed(_)) => true,
            (Phase::Receiving, Event::Song) => true,
            (Phase::Receiving, Event::Timeout) => true,
            (Phase::Receiving, Event::Closed) => true,
            (Phase::SendingSong, Event::Sent(_)) => true,
            (Phase::Closing, Event::Done) => true,
            _ => false,
        }
    }

    /// Takes what came of the last action and returns the next one (see [`server_step`]).
    pub fn step(&mut self, event: Event) -> (a: Action)
        requires
            server_step(old(self).phase, event) is Some,
        ensures
            server_step(old(self).phase, event) == Some((final(self).phase, a)),
    {
        let back = (Phase::Idle, Action::Notify(false));
        let (phase, action) = match (self.phase, event) {
            (Phase::Idle, Event::Done) => (Phase::Accepting, Action::Accept),
            (Phase::Accepting, Event::Accepted) => (Phase::Greeting, Action::SendPing),
            (Phase::Accepting, Event::AcceptFailed) => (Phase::Stopped, Action::Stop { failed: true }),
            (Phase::Greeting, Event::Sent(o)) => if o == Outcome::Done {
                (Phase::AwaitingReply, Action::ReadReply)
            } else {
                back
            },
            (Phase::AwaitingReply, Event::Reply(r)) => {
                let ping = match &r {
                    Some(s) => is_ping(s.as_str()),
                    None => false,
                };
                if ping {
                    (Phase::Answering, Action::SendPong)
                } else {
                    back
                }
            },
            (Phase::Answering, Event::Sent(o)) => if o == Outcome::Done {
                (Phase::Connected, Action::Notify(true))
            } else {
                back
            },
            (Phase::Connected, Event::Done) => (Phase::Switching, Action::SetNonblocking),
            (Phase::Switching, Event::Done) => (Phase::Probing, Action::Probe),
            (Phase::Probing, Event::Probed(o)) => if o == Outcome::Failed {
                back
            } else {
                (Phase::Receiving, Action::Receive)
            },
            (Phase::Receiving, Event::Song) => (Phase::SendingSong, Action::SendSong),
            (Phase::Receiving, Event::Timeout) => (Phase::Probing, Action::Probe),
            (Phase::Receiving, Event::Closed) => (Phase::Closing, Action::Notify(false)),
            (Phase::SendingSong, Event::Sent(o)) => if o == Outcome::Done || o == Outcome::Interrupted {
                (Phase::Probing, Action::Probe)
            } else {
                back
            },
            (Phase::Closing, Event::Done) => (Phase::Stopped, Action::Stop { failed: false }),
            _ => (Phase::Stopped, Action::Stop { failed: true }),
        };
        self.phase = phase;
        action
    }
}

/// The editor's connection flag stays true to the server: a step that notifies reports whether
/// a client is connected after it, and a step that does not leaves that unchanged. Since the
/// server starts by notifying `false` in [`Phase::Idle`], the last notification always says
/// whether a client that completed the handshake is connected.
pub proof fn law_notifications_track_connection(phase: Phase, event: Event)
    requires
        server_step(phase, event) is Some,
    ensures
        ({
            let (next, action) = server_step(phase, event).unwrap();
            &&& action matches Action::Notify(b) ==> b == client_connected(next)
            &&& !(action is Notify) ==> client_connected(next) == client_connected(phase)
        }),
{
}

/// The server stops only when accepting a client fails or the channel of songs closes, and a
/// stopped server takes no further event.
pub proof fn law_stops_only_when_done(phase: Phase, event: Event)
    ensures
        server_step(Phase::Stopped, event) is None,
        server_step(phase, event) matches Some((_, a)) && a is Stop ==> (phase == Phase::Accepting && event
            == Event::AcceptFailed) || (phase == Phase::Closing && event == Event::Done),
{
}

/// A song is sent only to a client that completed the handshake and has just been probed.
pub proof fn law_songs_only_to_connected_clients(phase: Phase, event: Event)
    ensures
        server_step(phase, event) matches Some((_, a)) && a == Action::SendSong ==> phase == Phase::Receiving
            && client_connected(phase),
{
}

} // verus!
