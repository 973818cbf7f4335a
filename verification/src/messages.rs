use vstd::prelude::*;

verus! {

/// What the server sends to a client of the ping server.
#[derive(Debug, Clone, Copy, PartialEq, Eq, Structural)]
pub enum ServerToClientMsg {
    /// The answer to a ping.
    Pong,
}

/// What a client sends to the ping server.
#[derive(Debug, Clone, Copy, PartialEq, Eq, Structural)]
pub enum ClientToServerMsg {
    /// Checks that the connection works.
    Ping,
}

/// The ping server answers every message with a pong.
pub fn reply_to(msg: ClientToServerMsg) -> (r: ServerToClientMsg)
    ensures
        r == ServerToClientMsg::Pong,
{
    match msg {
        ClientToServerMsg::Ping => ServerToClientMsg::Pong,
    }
}

} // verus!
