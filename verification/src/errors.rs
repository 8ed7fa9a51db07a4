use vstd::prelude::*;

verus! {

/// The failures the downloader distinguishes.
///
/// `Io` stands for a connection, read or write fault of the underlying
/// stream; `UnexpectedEof` for a stream that closed before the header
/// terminator arrived; `Protocol` for a response without a length-bearing
/// header where one is required; `Decode` for a length header whose value
/// is not a non-negative integer; and `Overrun` for merged data that would
/// exceed the declared resource size.
#[derive(Clone, Copy, Debug, PartialEq, Eq, Structural)]
pub enum FetchError {
    Io,
    UnexpectedEof,
    Protocol,
    Decode,
    Overrun,
}

} // verus!
