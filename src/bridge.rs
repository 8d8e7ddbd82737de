//! What a connection's reading side does with each frame it reads.
use crate::session::{ClientAddr, ClientMessage};
use vstd::prelude::*;

verus! {

/// A frame read from a client's connection.
#[derive(Debug)]
pub enum InboundFrame {
    /// The connection was closed, by a close frame or by the end of the stream.
    Closed,
    /// A text frame whose payload decoded as a message.
    Message(ClientMessage),
    /// A frame that is not a message: one that failed to decode, or one that is not text.
    Malformed,
}

/// What the reading side of a connection does next.
#[derive(Debug)]
pub enum InboundAction {
    /// Submit the event to the session actor and read on.
    Forward(ClientMessage),
    /// Submit the event to the session actor, then end the connection.
    ForwardAndEnd(ClientMessage),
    /// End the connection without submitting anything.
    End,
}

/// Turns a frame read from the connection at `client_addr` into what to do with it.
///
/// A close becomes a disconnect of that address. A join is stamped with that address, whatever
/// the client sent in its place. A disconnect sent as a message is not part of what clients may
/// send and, like a malformed frame, ends the connection.
pub fn process_client_msg(frame: InboundFrame, client_addr: ClientAddr) -> (r: InboundAction)
    ensures
        match frame {
            InboundFrame::Closed => r == InboundAction::ForwardAndEnd(
                (ClientMessage::ClientDisconnect { client_addr }),
            ),
            InboundFrame::Message(ClientMessage::PlayerJoin { player_name, .. }) => r
                == InboundAction::Forward(
                (ClientMessage::PlayerJoin { client_addr: Some(client_addr), player_name }),
            ),
            InboundFrame::Message(ClientMessage::PointEvent { player_name, new_points }) => r
                == InboundAction::Forward(
                (ClientMessage::PointEvent { player_name, new_points }),
            ),
            InboundFrame::Message(ClientMessage::ClientDisconnect { .. }) => r
                == InboundAction::End,
            InboundFrame::Malformed => r == InboundAction::End,
        },
        r matches InboundAction::Forward(m) ==> m.is_attached(),
        r matches InboundAction::ForwardAndEnd(m) ==> m.is_attached(),
{
    match frame {
        InboundFrame::Closed => InboundAction::ForwardAndEnd(
            ClientMessage::ClientDisconnect { client_addr },
        ),
        InboundFrame::Message(msg) => match msg {
            ClientMessage::PlayerJoin { client_addr: _, player_name } => InboundAction::Forward(
                ClientMessage::PlayerJoin { client_addr: Some(client_addr), player_name },
            ),
            ClientMessage::PointEvent { player_name, new_points } => InboundAction::Forward(
                ClientMessage::PointEvent { player_name, new_points },
            ),
            ClientMessage::ClientDisconnect { .. } => InboundAction::End,
        },
        InboundFrame::Malformed => InboundAction::End,
    }
}

} // verus!
