use vstd::prelude::*;

verus! {

/// Errors raised while reading frames or walking the fields of a request.
#[derive(Debug)]
pub enum ParseError {
    /// Not enough bytes are buffered to hold a complete frame.
    Incomplete,
    /// A request had fewer fields than the command needs.
    EndOfStream,
    /// A value was pushed onto a frame that is not an array.
    ParseArrayFrame,
    /// The bytes or the fields break the protocol.
    Parse(String),
    /// A frame shape the codec does not handle.
    Unimplemented,
}

/// Errors seen by one side of a connection.
#[derive(Debug)]
pub enum ConnectionError {
    /// The peer closed the connection in the middle of a frame.
    Disconnect,
    /// A reply had an unexpected shape.
    InvalidFrameType,
    /// An argument or a reply did not fit the request.
    InvalidArgument(String),
    /// The server answered with an error, or with an unexpected reply.
    CommandExecute(String),
    /// A frame or a request could not be parsed.
    Parse(ParseError),
}

} // verus!
