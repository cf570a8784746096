use vstd::prelude::*;

verus! {

/// The kind of failure a library call can report.
#[derive(Clone, Copy, Debug, PartialEq, Eq, Structural)]
pub enum ErrorKind {
    /// Lexical or structural error in a bencode byte stream.
    MalformedBencode,
    /// Schema violation in a torrent file.
    MalformedTorrent,
    /// Schema violation in a tracker response.
    MalformedResponse,
    /// A well-formed tracker response that carries a `failure reason`.
    TrackerErrorResponse,
    /// A `TorrentBuilder` was given an invalid configuration.
    TorrentBuilderFailure,
    /// A filesystem or overflow failure reported by the caller's I/O layer.
    IOError,
}

/// An error: a kind plus a human-readable message.  For
/// `TrackerErrorResponse` the message is the `failure reason` sent by the
/// tracker.
#[derive(Clone, Debug, PartialEq, Eq)]
pub struct LavaError {
    pub kind: ErrorKind,
    pub msg: String,
}

impl LavaError {
    /// Make an error of the given kind with the given message.
    pub fn new(kind: ErrorKind, msg: &str) -> (r: LavaError)
        ensures
            r.kind == kind,
            r.msg@ == msg@,
    {
        LavaError { kind, msg: msg.to_owned() }
    }

    /// The kind of this error.
    pub fn kind(&self) -> (k: ErrorKind)
        ensures
            k == self.kind,
    {
        self.kind
    }

    /// The message carried by this error.
    pub fn message(&self) -> (m: &String)
        ensures
            m@ == self.msg@,
    {
        &self.msg
    }
}

} // verus!
