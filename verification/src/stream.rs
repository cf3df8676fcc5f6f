//! The main loop between the Moonlight stream and the peer: what each event calls for.
use vstd::prelude::*;

use crate::control::ControlChannelEvent;
use crate::video::VideoChannelEvent;

verus! {

/// The state of a peer connection.
#[derive(Clone, Copy, Debug, PartialEq, Eq, Structural)]
pub enum PeerConnectionState {
    Unspecified,
    New,
    Connecting,
    Connected,
    Disconnected,
    Failed,
    Closed,
}

/// A control packet from the server, as far as the loop tells them apart.
#[derive(Debug, PartialEq, Eq)]
pub enum ControlPacket<H, P> {
    /// HDR is switched on or off.
    HdrMode { enabled: bool, sunshine: Option<H> },
    Other(P),
}

/// What the stream delivers.
#[derive(Debug, PartialEq, Eq)]
pub enum StreamEvent<A, F, H, P> {
    AudioFrame(A),
    /// The stream needs a video frame that can be decoded on its own.
    SignalIdr,
    VideoFrame(F),
    Control(ControlPacket<H, P>),
    /// Anything else, which the loop passes over.
    Other,
}

/// A packet for the server.
#[derive(Debug, PartialEq, Eq)]
pub enum ToServer<P> {
    RequestIdr,
    Packet(P),
}

/// What the loop does with an event of the stream.
#[derive(Debug, PartialEq, Eq)]
pub enum Action<A, F, H, P> {
    /// Hand a frame to the audio channel.
    AudioFrame(A),
    /// Hand a frame to the video channel.
    VideoFrame(F),
    /// Tell the video channel that HDR is switched on or off.
    SetHdrEnabled { enabled: bool, metadata: Option<H> },
    /// Send a packet on the control channel.
    SendToClient(ControlPacket<H, P>),
    /// Send a packet to the server, and go on where that fails.
    SendToServer(ToServer<P>),
}

/// What a turn of the loop begins with.
#[derive(Clone, Copy, Debug, PartialEq, Eq, Structural)]
pub enum Turn {
    /// End the loop: the stream is dead.
    Stop,
    /// Disconnect the stream, then wait for an event.
    Disconnect,
    /// Wait for an event.
    Wait,
}

/// The peer is gone for good.
pub open spec fn peer_gone(state: PeerConnectionState) -> bool {
    state == PeerConnectionState::Failed || state == PeerConnectionState::Closed
}

/// What a turn begins with, where `disconnected` tells whether the stream has been disconnected
/// before.
pub open spec fn turn_of(
    disconnected: bool,
    stream_alive: bool,
    peer_state: PeerConnectionState,
) -> Turn {
    if !stream_alive {
        Turn::Stop
    } else if peer_gone(peer_state) && !disconnected {
        Turn::Disconnect
    } else {
        Turn::Wait
    }
}

/// What an event of the stream calls for.
pub open spec fn actions_for<A, F, H, P>(event: StreamEvent<A, F, H, P>) -> Seq<
    Action<A, F, H, P>,
> {
    match event {
        StreamEvent::AudioFrame(frame) => seq![Action::AudioFrame(frame)],
        StreamEvent::SignalIdr => seq![Action::SendToServer(ToServer::RequestIdr)],
        StreamEvent::VideoFrame(frame) => seq![Action::VideoFrame(frame)],
        StreamEvent::Control(packet) => match packet {
            ControlPacket::HdrMode { enabled, sunshine } => seq![
                Action::SetHdrEnabled { enabled, metadata: sunshine },
                Action::SendToClient(packet),
            ],
            ControlPacket::Other(_) => seq![Action::SendToClient(packet)],
        },
        StreamEvent::Other => Seq::empty(),
    }
}

/// The loop's own state.
pub struct WebrtcLoop {
    moonlight_disconnected: bool,
}

impl View for WebrtcLoop {
    type V = bool;

    /// Whether the stream has been disconnected.
    closed spec fn view(&self) -> bool {
        self.moonlight_disconnected
    }
}

impl WebrtcLoop {
    /// Begins the loop, and says what to send to the server first. The stream can begin to encode
    /// before the peer is connected: asking for an IDR frame at once makes the first frame that
    /// can be relayed decodable on its own.
    pub fn start<P>() -> (begun: (WebrtcLoop, ToServer<P>))
        ensures
            !begun.0@,
            begun.1 is RequestIdr,
    {
        (WebrtcLoop { moonlight_disconnected: false }, ToServer::RequestIdr)
    }

    /// What a turn of the loop begins with.
    pub fn begin_turn(&mut self, stream_alive: bool, peer_state: PeerConnectionState) -> (turn: Turn)
        ensures
            turn == turn_of(old(self)@, stream_alive, peer_state),
            final(self)@ == (old(self)@ || turn == Turn::Disconnect),
    {
        if !stream_alive {
            return Turn::Stop;
        }
        if matches!(peer_state, PeerConnectionState::Failed | PeerConnectionState::Closed)
            && !self.moonlight_disconnected {
            self.moonlight_disconnected = true;
            return Turn::Disconnect;
        }
        Turn::Wait
    }

    /// What the outcome of driving the stream calls for. Once the stream has been disconnected,
    /// neither its events nor its errors count.
    pub fn on_stream<A, F, H: Copy, P, E>(
        &self,
        result: Result<StreamEvent<A, F, H, P>, E>,
    ) -> (actions: Result<Vec<Action<A, F, H, P>>, E>)
        ensures
            self@ ==> actions is Ok && actions->Ok_0@.len() == 0,
            !self@ ==> match (result, actions) {
                (Ok(event), Ok(list)) => list@ == actions_for(event),
                (Err(error), Err(e)) => e == error,
                _ => false,
            },
    {
        let mut actions: Vec<Action<A, F, H, P>> = Vec::new();
        if self.moonlight_disconnected {
            return Ok(actions);
        }
        let event = match result {
            Ok(event) => event,
            Err(error) => return Err(error),
        };
        match event {
            StreamEvent::AudioFrame(frame) => {
                actions.push(Action::AudioFrame(frame));
            },
            StreamEvent::SignalIdr => {
                actions.push(Action::SendToServer(ToServer::RequestIdr));
            },
            StreamEvent::VideoFrame(frame) => {
                actions.push(Action::VideoFrame(frame));
            },
            StreamEvent::Control(packet) => {
                if let ControlPacket::HdrMode { enabled, sunshine } = &packet {
                    actions.push(Action::SetHdrEnabled { enabled: *enabled, metadata: *sunshine });
                }
                actions.push(Action::SendToClient(packet));
            },
            StreamEvent::Other => {},
        }
        assert(actions@ =~= actions_for(event));
        Ok(actions)
    }

    /// What the outcome of driving the video channel sends to the server.
    pub fn on_video<P, E>(&self, result: Result<VideoChannelEvent, E>) -> (packet: Result<
        ToServer<P>,
        E,
    >)
        ensures
            match (result, packet) {
                (Ok(VideoChannelEvent::SignalIdr), Ok(p)) => p is RequestIdr,
                (Err(error), Err(e)) => e == error,
                _ => false,
            },
    {
        match result {
            Ok(VideoChannelEvent::SignalIdr) => Ok(ToServer::RequestIdr),
            Err(error) => Err(error),
        }
    }

    /// What the outcome of driving the control channel sends to the server.
    pub fn on_control<P, E>(&self, result: Result<ControlChannelEvent<P>, E>) -> (packet: Result<
        Option<ToServer<P>>,
        E,
    >)
        ensures
            match (result, packet) {
                (Ok(ControlChannelEvent::Packet(p)), Ok(sent)) => sent == Some(ToServer::Packet(p)),
                (Ok(ControlChannelEvent::Closed), Ok(sent)) => sent is None,
                (Err(error), Err(e)) => e == error,
                _ => false,
            },
    {
        match result {
            Ok(ControlChannelEvent::Packet(packet)) => Ok(Some(ToServer::Packet(packet))),
            Ok(ControlChannelEvent::Closed) => Ok(None),
            Err(error) => Err(error),
        }
    }
}

/// The state after a row of turns that begins in state `disconnected`; each turn is given by
/// whether the stream lives and the state of the peer.
pub open spec fn state_after(disconnected: bool, turns: Seq<(bool, PeerConnectionState)>) -> bool
    decreases turns.len(),
{
    if turns.len() == 0 {
        disconnected
    } else {
        let before = state_after(disconnected, turns.drop_last());
        before || turn_of(before, turns.last().0, turns.last().1) == Turn::Disconnect
    }
}

/// How often the stream is disconnected in a row of turns.
pub open spec fn disconnects(disconnected: bool, turns: Seq<(bool, PeerConnectionState)>) -> int
    decreases turns.len(),
{
    if turns.len() == 0 {
        0
    } else {
        let before = state_after(disconnected, turns.drop_last());
        disconnects(disconnected, turns.drop_last()) + (if turn_of(
            before,
            turns.last().0,
            turns.last().1,
        ) == Turn::Disconnect {
            1int
        } else {
            0int
        })
    }
}

/// From its start on, the loop disconnects the stream at most once, and its state tells whether
/// it has.
pub proof fn law_disconnects_at_most_once(turns: Seq<(bool, PeerConnectionState)>)
    ensures
        0 <= disconnects(false, turns) <= 1,
        state_after(false, turns) <==> disconnects(false, turns) == 1,
    decreases turns.len(),
{
    if turns.len() > 0 {
        law_disconnects_at_most_once(turns.drop_last());
    }
}

/// A stream that has been disconnected stays so, whatever turns follow.
pub proof fn law_disconnected_for_good(turns: Seq<(bool, PeerConnectionState)>)
    ensures
        state_after(true, turns),
        disconnects(true, turns) == 0,
    decreases turns.len(),
{
    if turns.len() > 0 {
        law_disconnected_for_good(turns.drop_last());
    }
}

/// After a turn that found the peer gone and the stream alive, the stream has been disconnected.
pub proof fn law_gone_peer_is_disconnected(
    turns: Seq<(bool, PeerConnectionState)>,
    peer_state: PeerConnectionState,
)
    requires
        peer_gone(peer_state),
    ensures
        state_after(false, turns.push((true, peer_state))),
        disconnects(false, turns.push((true, peer_state))) == 1,
{
    let longer = turns.push((true, peer_state));
    assert(longer.drop_last() =~= turns);
    law_disconnects_at_most_once(longer);
}

/// A turn ends the loop exactly where the stream is dead. It disconnects the stream exactly where
/// the stream lives, has not been disconnected, and the peer has failed or is closed; in every
/// other state of the peer the stream is left alone.
pub proof fn law_what_a_turn_begins_with(
    disconnected: bool,
    stream_alive: bool,
    peer_state: PeerConnectionState,
)
    ensures
        turn_of(disconnected, stream_alive, peer_state) == Turn::Stop <==> !stream_alive,
        turn_of(disconnected, stream_alive, peer_state) == Turn::Disconnect <==> stream_alive
            && !disconnected && (peer_state == PeerConnectionState::Failed || peer_state
            == PeerConnectionState::Closed),
{
}

/// Over a row of turns the stream is disconnected exactly where some turn found the stream alive
/// and the peer failed or closed. While no turn did, the stream stays connected.
pub proof fn law_only_a_gone_peer_disconnects(turns: Seq<(bool, PeerConnectionState)>)
    ensures
        state_after(false, turns) <==> exists|i: int|
            0 <= i < turns.len() && (#[trigger] turns[i]).0 && (turns[i].1
                == PeerConnectionState::Failed || turns[i].1 == PeerConnectionState::Closed),
        (forall|i: int|
            0 <= i < turns.len() ==> (#[trigger] turns[i]).1 != PeerConnectionState::Failed
                && turns[i].1 != PeerConnectionState::Closed) ==> disconnects(false, turns) == 0
            && !state_after(false, turns),
    decreases turns.len(),
{
    law_disconnects_at_most_once(turns);
    if turns.len() > 0 {
        let earlier = turns.drop_last();
        law_only_a_gone_peer_disconnects(earlier);
        if state_after(false, earlier) {
            let i = choose|i: int|
                0 <= i < earlier.len() && (#[trigger] earlier[i]).0 && (earlier[i].1
                    == PeerConnectionState::Failed || earlier[i].1 == PeerConnectionState::Closed);
            assert(turns[i] == earlier[i]);
        }
        assert(turns.last() == turns[turns.len() - 1]);
        if exists|i: int|
            0 <= i < turns.len() && (#[trigger] turns[i]).0 && (turns[i].1
                == PeerConnectionState::Failed || turns[i].1 == PeerConnectionState::Closed) {
            let i = choose|i: int|
                0 <= i < turns.len() && (#[trigger] turns[i]).0 && (turns[i].1
                    == PeerConnectionState::Failed || turns[i].1 == PeerConnectionState::Closed);
            if i < earlier.len() {
                assert(earlier[i] == turns[i]);
            }
        }
    }
}

/// Each kind of action is taken exactly for the event that calls for it, with what the event
/// brings, and once: frames go to their channel, an IDR signal goes to the server, every control
/// packet goes to the client, and every switch of HDR, on or off, goes to the video channel.
pub proof fn law_events_are_routed<A, F, H, P>(event: StreamEvent<A, F, H, P>)
    ensures
        forall|frame: A| #[trigger]
            actions_for(event).contains(Action::AudioFrame(frame)) <==> event == StreamEvent::<
                A,
                F,
                H,
                P,
            >::AudioFrame(frame),
        forall|frame: F| #[trigger]
            actions_for(event).contains(Action::VideoFrame(frame)) <==> event == StreamEvent::<
                A,
                F,
                H,
                P,
            >::VideoFrame(frame),
        forall|packet: ToServer<P>| #[trigger]
            actions_for(event).contains(Action::SendToServer(packet)) <==> event is SignalIdr
                && packet is RequestIdr,
        forall|packet: ControlPacket<H, P>| #[trigger]
            actions_for(event).contains(Action::SendToClient(packet)) <==> event == StreamEvent::<
                A,
                F,
                H,
                P,
            >::Control(packet),
        forall|enabled: bool, metadata: Option<H>| #[trigger]
            actions_for(event).contains(Action::SetHdrEnabled { enabled, metadata }) <==> event
                == StreamEvent::<A, F, H, P>::Control(
                ControlPacket::HdrMode { enabled, sunshine: metadata },
            ),
        actions_for(event).no_duplicates(),
{
    let actions = actions_for(event);
    match event {
        StreamEvent::AudioFrame(_) | StreamEvent::SignalIdr | StreamEvent::VideoFrame(_) => {
            assert(actions.contains(actions[0]));
        },
        StreamEvent::Control(packet) => {
            assert(actions.contains(actions[0]));
            if packet is HdrMode {
                assert(actions.contains(actions[1]));
            }
        },
        StreamEvent::Other => {},
    }
}

/// Every control packet is the last thing that its event calls for: where it switches HDR, the
/// video channel learns of it first, and nothing else is done.
pub proof fn law_control_packets_reach_the_client<A, F, H, P>(packet: ControlPacket<H, P>)
    ensures
        actions_for(StreamEvent::<A, F, H, P>::Control(packet)).len() > 0,
        actions_for(StreamEvent::<A, F, H, P>::Control(packet)).last() == Action::<
            A,
            F,
            H,
            P,
        >::SendToClient(packet),
        match packet {
            ControlPacket::HdrMode { enabled, sunshine } => {
                &&& actions_for(StreamEvent::<A, F, H, P>::Control(packet)).len() == 2
                &&& actions_for(StreamEvent::<A, F, H, P>::Control(packet)).first() == Action::<
                    A,
                    F,
                    H,
                    P,
                >::SetHdrEnabled { enabled, metadata: sunshine }
            },
            ControlPacket::Other(_) => actions_for(
                StreamEvent::<A, F, H, P>::Control(packet),
            ).len() == 1,
        },
{
}

} // verus!
