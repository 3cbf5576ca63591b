//! Errors reported by the codec and the channel logic.
use vstd::prelude::*;

verus! {

/// What went wrong.
#[derive(PartialEq, Eq, Debug, Clone)]
pub enum AmqpError {
    /// Bytes that do not form a frame or a value.
    MalformedFrame,
    /// A value tag outside the known set.
    UnknownTag,
    /// A short string longer than 255 bytes.
    ShortStringOverflow,
    /// A payload whose byte length does not fit a 32-bit prefix.
    TableLengthOverflow,
    /// The opening exchange with the broker went wrong.
    HandshakeFailed,
    /// Two heartbeat intervals passed without a frame from the broker.
    HeartbeatLost,
    /// The broker closed the channel.
    ChannelClosed { code: u16, text: String },
    /// The broker closed the connection.
    ConnectionClosed { code: u16, text: String },
    /// A reply of the same kind is already awaited on the channel.
    RpcInFlight,
    /// Every channel id is in use.
    NoFreeChannel,
    /// A content-body frame larger than the negotiated maximum.
    FrameTooLarge,
}

} // verus!
