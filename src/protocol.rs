use vstd::prelude::*;

verus! {

/// The identifier of a timer that a consensus instance asked for.
#[derive(Clone, Copy, Debug, PartialEq, Eq, Structural, Hash)]
pub struct TimerId(pub u64);

/// The identifier of a peer node.
#[derive(Clone, Copy, Debug, PartialEq, Eq, Structural, Hash)]
pub struct NodeId(pub u64);

/// The identifier of an era, each of which runs its own consensus instance.
#[derive(Clone, Copy, Debug, PartialEq, Eq, Structural, Hash)]
pub struct EraId(pub u64);

/// The types a consensus protocol exchanges with the layers around it.
pub trait ConsensusContext {
    /// A consensus specific message. What gets sent over the wire is opaque to the networking
    /// layer; it is materialized to a concrete type in the consensus protocol layer.
    type IncomingMessage;

    /// A message that an instance of the consensus protocol creates when it wants to
    /// participate in the consensus.
    type OutgoingMessage;

    /// The values the protocol agrees on.
    type ConsensusValue;
}

/// What a consensus protocol instance reports after handling an event.
pub enum ConsensusProtocolResult<M, I> {
    /// A new message to send.
    CreatedNewMessage(M),
    /// An incoming message was invalid, for the given reason.
    InvalidIncomingMessage(I, String),
}

/// An API for a single instance of the consensus.
pub trait ConsensusProtocol<Ctx: ConsensusContext> {
    /// Handles an incoming message (like a new vote, or a dependency request).
    fn handle_message(&self, msg: Ctx::IncomingMessage) -> Result<
        ConsensusProtocolResult<Ctx::OutgoingMessage, Ctx::IncomingMessage>,
        String,
    >;

    /// Triggers the consensus to create a new message.
    fn handle_timer(&self, timer_id: TimerId) -> Result<
        ConsensusProtocolResult<Ctx::OutgoingMessage, Ctx::IncomingMessage>,
        String,
    >;
}

/// A message as it travels between nodes: its content is opaque to the networking layer.
#[derive(Debug)]
pub struct MessageWireFormat {
    pub era_id: EraId,
    pub sender: NodeId,
    pub message_content: Vec<u8>,
}

/// A reactor effect.
#[derive(Debug)]
pub enum Effect<Ev> {
    /// Deliver the timer event at the given instant, in milliseconds.
    DelayEvent(u64, TimerId),
    /// Deliver a new event.
    NewMessage(Ev),
    /// Nothing to do.
    Nothing,
}

/// An event for the consensus service.
pub enum Event {
    IncomingMessage(MessageWireFormat),
    Timer(EraId, TimerId),
}

/// Why the consensus service could not handle an event.
pub enum ConsensusServiceError {
    InvalidFormat(String),
    InternalError(String),
}

/// The API between the reactor and the consensus component.
pub trait ConsensusService {
    fn handle_event(&mut self, event: Event) -> Result<Vec<Effect<Event>>, ConsensusServiceError>;
}

} // verus!
