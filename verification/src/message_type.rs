use vstd::prelude::*;

verus! {

/// Message kinds of the relay's framed protocol.  A frame's second header
/// byte carries the kind's ordinal, assigned from zero in declaration order,
/// with the high bit reserved for the encryption flag.
#[derive(Clone, Copy, PartialEq, Eq, Structural, Debug)]
pub enum EgMessageType {
    Init,
    InitResponse,
    Operation,
    OperationResponse,
    Event,
    DisconnectReason,
    InternalOperationRequest,
    InternalOperationResponse,
    Message,
    RawMessage,
}

impl EgMessageType {
    /// The ordinal written on the wire for this kind.
    pub open spec fn spec_code(self) -> u8 {
        match self {
            EgMessageType::Init => 0,
            EgMessageType::InitResponse => 1,
            EgMessageType::Operation => 2,
            EgMessageType::OperationResponse => 3,
            EgMessageType::Event => 4,
            EgMessageType::DisconnectReason => 5,
            EgMessageType::InternalOperationRequest => 6,
            EgMessageType::InternalOperationResponse => 7,
            EgMessageType::Message => 8,
            EgMessageType::RawMessage => 9,
        }
    }

    pub fn code(self) -> (r: u8)
        ensures
            r == self.spec_code(),
    {
        match self {
            EgMessageType::Init => 0,
            EgMessageType::InitResponse => 1,
            EgMessageType::Operation => 2,
            EgMessageType::OperationResponse => 3,
            EgMessageType::Event => 4,
            EgMessageType::DisconnectReason => 5,
            EgMessageType::InternalOperationRequest => 6,
            EgMessageType::InternalOperationResponse => 7,
            EgMessageType::Message => 8,
            EgMessageType::RawMessage => 9,
        }
    }
}

} // verus!
