use vstd::prelude::*;

verus! {

/// Why a relay frame could not be decoded.  All of these are fatal for the
/// relay connection; none aborts the process.
#[derive(Debug, Clone, Copy, PartialEq, Eq, Structural)]
pub enum DecodeError {
    /// A read ran past the logical end of the frame.
    ShortBuffer,
    /// A wire type byte in the reserved range `128..=228`, or one this codec
    /// does not speak.
    UnsupportedType,
    /// An inbound frame whose message kind is none of the known ones.
    UnknownKind,
    /// An encrypted frame; this codec fails closed on encryption.
    EncryptionUnsupported,
    /// A region-discovery response whose name and address arrays disagree.
    MalformedDiscovery,
    /// Text on the wire that is not valid UTF-8.
    MalformedText,
}

impl DecodeError {
    /// A short description for logs.
    pub fn describe(&self) -> (r: &'static str)
        ensures
            r@.len() > 0,
    {
        let s: &'static str = match self {
            DecodeError::ShortBuffer => "short buffer",
            DecodeError::UnsupportedType => "unsupported wire type",
            DecodeError::UnknownKind => "unknown message kind",
            DecodeError::EncryptionUnsupported => "encryption unsupported",
            DecodeError::MalformedDiscovery => "malformed region discovery",
            DecodeError::MalformedText => "malformed text",
        };
        proof {
            reveal_strlit("short buffer");
            reveal_strlit("unsupported wire type");
            reveal_strlit("unknown message kind");
            reveal_strlit("encryption unsupported");
            reveal_strlit("malformed region discovery");
            reveal_strlit("malformed text");
        }
        s
    }
}

} // verus!
