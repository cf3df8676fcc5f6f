//! The control channel: packets queued for the client, and packets received from it.
use std::collections::VecDeque;

use bytes::Bytes;
use vstd::prelude::*;

use crate::payload;
use crate::text::starts_with;

verus! {

/// What the control channel has to report.
#[derive(Debug, PartialEq, Eq)]
pub enum ControlChannelEvent<P> {
    /// The client sent a packet.
    Packet(P),
    /// Nothing more will be received.
    Closed,
}

/// The state of a data channel.
#[derive(Clone, Copy, Debug, PartialEq, Eq, Structural)]
pub enum DataChannelState {
    Unspecified,
    Connecting,
    Open,
    Closing,
    Closed,
}

/// What the control channel waits for next.
pub enum ControlStep<'a> {
    /// For nothing: the channel is dead.
    Park,
    /// For a message, for the channel to open and, where there is something to transmit, for that
    /// to be sent.
    Wait { transmit: Option<&'a Bytes> },
}

/// What came of receiving from the client.
#[derive(Debug, PartialEq, Eq)]
pub enum Reception<P> {
    /// The receiver has ended.
    Ended,
    /// A message came, and this is the packet in it; `None` where it holds none.
    Message(Option<P>),
}

/// What ended a wait.
#[derive(Debug, PartialEq, Eq)]
pub enum Wake<P> {
    Received(Reception<P>),
    /// The send is over, well or badly.
    Sent,
    /// The channel has opened.
    Opened,
}

/// The control channel of one peer.
pub struct ControlChannel {
    send_queue: VecDeque<Bytes>,
}

impl View for ControlChannel {
    type V = Seq<Seq<u8>>;

    /// The queued packets, the next to be sent first.
    closed spec fn view(&self) -> Seq<Seq<u8>> {
        payload::contents_of(self.send_queue@)
    }
}

/// The label of the data channel for reliable packets.
pub open spec fn primary_label() -> Seq<char> {
    "moonlight.control"@
}

/// A data channel with this label carries control packets beside the primary channel.
pub open spec fn is_subchannel(label: Seq<char>) -> bool {
    "moonlight.control."@.is_prefix_of(label)
}

/// The channel may still deliver something.
pub open spec fn alive(ready_state: DataChannelState, receiver_closed: bool) -> bool {
    ready_state != DataChannelState::Closed && !receiver_closed
}

/// The packet to transmit next, where the channel is open and one is queued.
pub open spec fn transmission(queue: Seq<Seq<u8>>, ready_state: DataChannelState) -> Option<Seq<u8>> {
    if queue.len() > 0 && ready_state == DataChannelState::Open {
        Some(queue[0])
    } else {
        None
    }
}

/// The queue once a packet has been put into it.
pub open spec fn queued(queue: Seq<Seq<u8>>, packet: Seq<u8>) -> Seq<Seq<u8>> {
    seq![packet] + queue
}

/// The queue once a wait has ended.
pub open spec fn queue_after<P>(queue: Seq<Seq<u8>>, wake: Wake<P>) -> Seq<Seq<u8>> {
    if wake is Sent && queue.len() > 0 {
        queue.drop_first()
    } else {
        queue
    }
}

/// What a wait has to report, where it has something to report.
pub open spec fn event_of<P>(wake: Wake<P>) -> Option<ControlChannelEvent<P>> {
    match wake {
        Wake::Received(Reception::Ended) => Some(ControlChannelEvent::Closed),
        Wake::Received(Reception::Message(Some(packet))) => Some(
            ControlChannelEvent::Packet(packet),
        ),
        _ => None,
    }
}

impl ControlChannel {
    /// A channel with nothing queued.
    pub fn new() -> (channel: ControlChannel)
        ensures
            channel@.len() == 0,
    {
        ControlChannel { send_queue: VecDeque::new() }
    }

    /// The label under which the primary data channel is created.
    pub fn label() -> (label: &'static str)
        ensures
            label@ == primary_label(),
    {
        "moonlight.control"
    }

    /// Tells whether a data channel with this label is one to receive control packets from.
    pub fn try_add_channel(&self, label: &str) -> (added: bool)
        ensures
            added == is_subchannel(label@),
    {
        starts_with(label, "moonlight.control.")
    }

    /// Queues a packet for the client. `serialized` is the outcome of writing it to `buffer`; a
    /// packet that could not be written is dropped.
    pub fn send<E>(&mut self, buffer: &[u8], serialized: Result<usize, E>)
        requires
            serialized matches Ok(len) ==> len <= buffer@.len(),
        ensures
            final(self)@ == (match serialized {
                Ok(len) => queued(old(self)@, buffer@.take(len as int)),
                Err(_) => old(self)@,
            }),
    {
        let len = match serialized {
            Ok(len) => len,
            Err(_) => return,
        };
        let packet = Bytes::copy_from_slice(vstd::slice::slice_subrange(buffer, 0, len));
        self.send_queue.push_front(packet);
        assert(self@ =~= queued(old(self)@, buffer@.take(len as int)));
    }

    /// Tells whether the channel may still deliver something.
    pub fn is_alive(&self, ready_state: DataChannelState, receiver_closed: bool) -> (live: bool)
        ensures
            live == alive(ready_state, receiver_closed),
    {
        !matches!(ready_state, DataChannelState::Closed) && !receiver_closed
    }

    /// What to wait for next.
    ///
    /// # Cancel Safety
    /// The queue keeps a packet until its send is over, so a wait may be abandoned at any time:
    /// no state is lost.
    pub fn drive(&self, ready_state: DataChannelState, receiver_closed: bool) -> (step: ControlStep<
        '_,
    >)
        ensures
            match step {
                ControlStep::Park => !alive(ready_state, receiver_closed),
                ControlStep::Wait { transmit } => {
                    &&& alive(ready_state, receiver_closed)
                    &&& match transmit {
                        Some(packet) => transmission(self@, ready_state) == Some(
                            payload::bytes_contents(*packet),
                        ),
                        None => transmission(self@, ready_state) is None,
                    }
                },
            },
    {
        if !self.is_alive(ready_state, receiver_closed) {
            // There's nothing to do
            return ControlStep::Park;
        }
        if self.send_queue.len() > 0 && matches!(ready_state, DataChannelState::Open) {
            ControlStep::Wait { transmit: Some(&self.send_queue[0]) }
        } else {
            ControlStep::Wait { transmit: None }
        }
    }

    /// Takes in what ended a wait. Returns the event to report; `None` where the channel has to be
    /// driven on.
    pub fn on_wake<P>(&mut self, wake: Wake<P>) -> (event: Option<ControlChannelEvent<P>>)
        ensures
            event == event_of(wake),
            final(self)@ == queue_after(old(self)@, wake),
    {
        match wake {
            // The channel closed
            Wake::Received(Reception::Ended) => Some(ControlChannelEvent::Closed),
            Wake::Received(Reception::Message(Some(packet))) => Some(
                ControlChannelEvent::Packet(packet),
            ),
            Wake::Received(Reception::Message(None)) => None,
            Wake::Sent => {
                self.send_queue.pop_front();
                assert(self@ =~= queue_after(old(self)@, wake));
                None
            },
            Wake::Opened => None,
        }
    }
}

/// The packet that was queued last is the next to be transmitted, once the channel is open.
pub proof fn law_last_queued_goes_first(queue: Seq<Seq<u8>>, packet: Seq<u8>)
    ensures
        transmission(queued(queue, packet), DataChannelState::Open) == Some(packet),
{
}

/// Once a queued packet has been sent, the queue is what it was before the packet came.
pub proof fn law_sent_undoes_queued<P>(queue: Seq<Seq<u8>>, packet: Seq<u8>)
    ensures
        queue_after(queued(queue, packet), Wake::<P>::Sent) == queue,
{
    assert(queued(queue, packet).drop_first() =~= queue);
}

/// Nothing but the end of a send takes a packet out of the queue, so a packet whose send was
/// abandoned is transmitted again.
pub proof fn law_abandoned_send_is_repeated<P>(
    queue: Seq<Seq<u8>>,
    wake: Wake<P>,
    ready_state: DataChannelState,
)
    requires
        wake !is Sent,
    ensures
        queue_after(queue, wake) == queue,
        transmission(queue_after(queue, wake), ready_state) == transmission(queue, ready_state),
{
}

/// A packet stays queued while the channel is not open.
pub proof fn law_nothing_sent_unless_open(queue: Seq<Seq<u8>>, ready_state: DataChannelState)
    requires
        ready_state != DataChannelState::Open,
    ensures
        transmission(queue, ready_state) is None,
{
}

/// The primary channel is not taken for a channel beside it.
pub proof fn law_primary_is_no_subchannel()
    ensures
        !is_subchannel(primary_label()),
{
    reveal_strlit("moonlight.control");
    reveal_strlit("moonlight.control.");
}

/// A packet that is queued goes before all that are queued already, which stay as they are.
pub proof fn law_queue_keeps_what_it_holds(queue: Seq<Seq<u8>>, packet: Seq<u8>)
    ensures
        queued(queue, packet).len() == queue.len() + 1,
        queued(queue, packet).first() == packet,
        forall|i: int| 0 <= i < queue.len() ==> queued(queue, packet)[i + 1] == #[trigger] queue[i],
{
}

/// Where the channel is open, what is transmitted is the first of the queue; an empty queue has
/// nothing to transmit, and the end of a send leaves it empty.
pub proof fn law_first_of_the_queue_is_transmitted<P>(
    queue: Seq<Seq<u8>>,
    ready_state: DataChannelState,
)
    ensures
        queue.len() > 0 ==> transmission(queue, DataChannelState::Open) == Some(queue.first()),
        queue.len() == 0 ==> transmission(queue, ready_state) is None,
        queue.len() == 0 ==> queue_after(queue, Wake::<P>::Sent) == queue,
        transmission(queue, ready_state) is Some ==> ready_state == DataChannelState::Open,
{
}

/// The queue once a row of packets has been put into it, one after another.
pub open spec fn queued_all(queue: Seq<Seq<u8>>, packets: Seq<Seq<u8>>) -> Seq<Seq<u8>>
    decreases packets.len(),
{
    if packets.len() == 0 {
        queue
    } else {
        queued(queued_all(queue, packets.drop_last()), packets.last())
    }
}

/// A row of packets stands in the queue with the last of the row first, in front of what was
/// queued before.
pub proof fn law_row_is_queued_last_first(queue: Seq<Seq<u8>>, packets: Seq<Seq<u8>>)
    ensures
        queued_all(queue, packets) == packets.reverse() + queue,
    decreases packets.len(),
{
    if packets.len() == 0 {
        assert(packets.reverse() + queue =~= queue);
    } else {
        law_row_is_queued_last_first(queue, packets.drop_last());
        assert(packets.reverse() =~= seq![packets.last()] + packets.drop_last().reverse());
        assert(queued_all(queue, packets) =~= packets.reverse() + queue);
    }
}

/// A channel is dead exactly where it is closed or its receiver is.
pub proof fn law_closed_is_dead(ready_state: DataChannelState, receiver_closed: bool)
    ensures
        !alive(DataChannelState::Closed, receiver_closed),
        !alive(ready_state, true),
        alive(DataChannelState::Unspecified, false),
        alive(DataChannelState::Connecting, false),
        alive(DataChannelState::Open, false),
        alive(DataChannelState::Closing, false),
{
}

/// The labels of channels beside the primary one are its label, a dot and anything more.
pub proof fn law_subchannels_extend_the_primary_label(label: Seq<char>)
    ensures
        primary_label() == "moonlight.control"@,
        is_subchannel(label) <==> exists|rest: Seq<char>|
            label == #[trigger] ("moonlight.control"@ + seq!['.'] + rest),
{
    reveal_strlit("moonlight.control");
    reveal_strlit("moonlight.control.");
    let prefix = "moonlight.control"@ + seq!['.'];
    assert("moonlight.control."@ =~= prefix);
    if is_subchannel(label) {
        let rest = label.skip(prefix.len() as int);
        assert(label =~= prefix + rest);
    }
    if exists|rest: Seq<char>| label == #[trigger] ("moonlight.control"@ + seq!['.'] + rest) {
        let rest = choose|rest: Seq<char>|
            label == #[trigger] ("moonlight.control"@ + seq!['.'] + rest);
        assert(label.subrange(0, prefix.len() as int) =~= prefix);
    }
}

/// A packet that is received is reported, and so is the end of the receiver. Nothing else is: no
/// message without a packet in it, no send that is over, and not that the channel has opened.
pub proof fn law_what_is_received_is_reported<P>(wake: Wake<P>, packet: P)
    ensures
        event_of(wake) == Some(ControlChannelEvent::Packet(packet)) <==> wake == Wake::Received(
            Reception::Message(Some(packet)),
        ),
        event_of(wake) == Some(ControlChannelEvent::<P>::Closed) <==> wake == Wake::<P>::Received(
            Reception::Ended,
        ),
{
}

} // verus!
