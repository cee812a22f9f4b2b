use vstd::prelude::*;

use crate::errors::DecodeError;
use crate::message_type::EgMessageType;
use crate::operation_response::{OperationResponse, OperationResponseModel};
use crate::parameter_codes::{ADDRESS, APPLICATION_ID, REGION};
use crate::parameter_dictionary::{ParameterDictionary, Value, ValueModel};
use crate::photon_codes;
use crate::photon_region::PhotonRegion;
use crate::protocol_v18::{
    parse_operation_response, serialize_operation_request, table_encodable, table_encoding,
};
use crate::stream_buffer::StreamBuffer;

verus! {

broadcast use crate::stream_buffer::stream_buffer_wf_bounds;

/// Application id sent with a region-discovery request.
pub const APP_ID: &'static str = "0d501af7-d643-47dd-811a-cfc25ef543be";

/// UTF-8 spends between one and four bytes on each character.
pub proof fn lemma_encode_utf8_len(s: Seq<char>)
    ensures
        s.len() <= vstd::utf8::encode_utf8(s).len() <= 4 * s.len(),
    decreases s.len(),
{
    if s.len() > 0 {
        lemma_encode_utf8_len(s.drop_first());
        assert(1 <= vstd::utf8::encode_scalar(s[0] as u32).len() <= 4);
    }
}

/// A one-entry table of an encodable value stays within a bounded frame:
/// its bytes are the count, the key, and the value's encoding.
proof fn lemma_small_table_len(m: Seq<(u8, ValueModel)>)
    requires
        m.len() == 1,
        crate::protocol_v18::encodable(m[0].1),
    ensures
        table_encoding(m).len() <= 8 + (match m[0].1 {
            ValueModel::Str(s) => vstd::utf8::encode_utf8(s).len(),
            _ => 0,
        }),
{
    crate::protocol_v18::lemma_value_encoding_len(m[0].1);
    assert(m.drop_first() =~= Seq::<(u8, ValueModel)>::empty());
    assert(crate::protocol_v18::entries_encoding(Seq::<(u8, ValueModel)>::empty())
        == Seq::<u8>::empty());
    assert(crate::protocol_v18::entries_encoding(m) == seq![m[0].0] + crate::protocol_v18::value_encoding(
        m[0].1,
    ) + crate::protocol_v18::entries_encoding(m.drop_first()));
}

/// The framed form of an operation request: the header `0xF3 0x02`, then
/// the request.  Where the first payload byte is not the ordinal of the
/// Operation message kind, the byte after `0xF3` is overwritten with the
/// caller's message kind.
pub open spec fn message_encoding(
    opcode: u8,
    entries: Seq<(u8, ValueModel)>,
    message_type: EgMessageType,
) -> Seq<u8> {
    let body = seq![243u8, 2u8, opcode] + table_encoding(entries);
    if opcode != 2 {
        body.update(1, message_type.spec_code())
    } else {
        body
    }
}

/// Frames an operation request for the relay's transport.
pub fn serialize_operation_to_message(
    opcode: u8,
    param_dict: ParameterDictionary,
    message_type: EgMessageType,
) -> (r: Vec<u8>)
    requires
        param_dict.wf(),
        table_encodable(param_dict.model()),
        table_encoding(param_dict.model()).len() + 16 <= usize::MAX,
    ensures
        r@ == message_encoding(opcode, param_dict.model(), message_type),
{
    let ghost model = param_dict.model();
    let mut buffer = StreamBuffer::with_capacity(0);
    buffer.write_byte(243);
    buffer.write_byte(2);
    proof {
        assert(buffer.content() =~= seq![243u8, 2u8]);
    }
    serialize_operation_request(&mut buffer, opcode, param_dict, false);
    proof {
        assert(buffer.content() =~= seq![243u8, 2u8, opcode] + table_encoding(model));
        assert(table_encoding(model).len() >= 1);
    }

    let length = buffer.length();
    let buffer_ref = buffer.get_buffer();
    let head = vstd::slice::slice_subrange(buffer_ref, 0, length);
    let mut raw_buffer = vstd::slice::slice_to_vec(head);
    proof {
        assert(raw_buffer@ =~= buffer.content());
    }

    if raw_buffer[2] != 2 {
        let code = message_type.code();
        raw_buffer[1] = code;
    }
    proof {
        assert(raw_buffer@ =~= message_encoding(opcode, model, message_type));
    }
    raw_buffer
}

/// The relay's internal ping request, stamped with the caller's clock.
pub fn init_callback(now_ms: u64) -> (r: Vec<u8>)
    ensures
        r@ == message_encoding(
            photon_codes::PING,
            seq![(1u8, ValueModel::Int(now_ms as i32))],
            EgMessageType::InternalOperationRequest,
        ),
{
    let mut ping_param_dict = ParameterDictionary::new();
    ping_param_dict.set(1, Value::Int(now_ms as i32));
    proof {
        assert(ping_param_dict.model() =~= seq![(1u8, ValueModel::Int(now_ms as i32))]);
        lemma_small_table_len(ping_param_dict.model());
    }
    serialize_operation_to_message(
        photon_codes::PING,
        ping_param_dict,
        EgMessageType::InternalOperationRequest,
    )
}

/// The region-discovery request, bearing the application id.
pub fn get_regions() -> (r: Vec<u8>)
    ensures
        r@ == message_encoding(
            photon_codes::GET_REGIONS,
            seq![(APPLICATION_ID, ValueModel::Str(APP_ID@))],
            EgMessageType::Operation,
        ),
{
    let mut parameters = ParameterDictionary::new();
    let app_id: &str = APP_ID;
    proof {
        reveal_strlit("0d501af7-d643-47dd-811a-cfc25ef543be");
        lemma_encode_utf8_len(app_id@);
    }
    parameters.set(APPLICATION_ID, Value::String(app_id.to_owned()));
    proof {
        assert(parameters.model() =~= seq![(APPLICATION_ID, ValueModel::Str(APP_ID@))]);
        lemma_small_table_len(parameters.model());
    }
    serialize_operation_to_message(
        photon_codes::GET_REGIONS,
        parameters,
        EgMessageType::Operation,
    )
}

/// The round trip and server stamp reported by a ping response: the
/// response echoes the client clock at key 1 and carries the server clock
/// at key 2.
pub fn read_ping_result(operation_response: &OperationResponse, now_ms: u64) -> (r: Option<
    (u64, i32),
>)
    ensures
        ({
            match (
                operation_response.payload.spec_get(1),
                operation_response.payload.spec_get(2),
            ) {
                (Some(Value::Int(last)), Some(Value::Int(ts))) => {
                    let sent = last as u64;
                    r == Some(
                        (if now_ms >= sent { (now_ms - sent) as u64 } else { 0u64 }, ts),
                    )
                },
                _ => r is None,
            }
        }),
{
    let server_timestamp = match operation_response.payload.get(2) {
        Some(Value::Int(num)) => *num,
        _ => {
            return None;
        },
    };
    let last_timestamp: u64 = match operation_response.payload.get(1) {
        Some(Value::Int(num)) => *num as u64,
        _ => {
            return None;
        },
    };

    let last_round_trip_time = if now_ms >= last_timestamp {
        now_ms - last_timestamp
    } else {
        0
    };
    Some((last_round_trip_time, server_timestamp))
}

/// What an inbound relay frame asks of the client.
#[derive(Debug)]
pub enum FrameAction {
    /// The frame is no operation frame; it is silently discarded.
    NotOperation,
    /// The connection is initialized: the client answers with its internal
    /// ping and a region-discovery request.
    InitResponse,
    /// An internal operation response, such as the ping echo.
    InternalResponse(OperationResponse),
    /// An operation response, such as the region list.
    Response(OperationResponse),
    /// The server says goodbye.
    Disconnect,
}

/// The mathematical shape of a frame action.
pub enum FrameActionModel {
    NotOperation,
    InitResponse,
    InternalResponse(OperationResponseModel),
    Response(OperationResponseModel),
    Disconnect,
}

impl View for FrameAction {
    type V = FrameActionModel;

    open spec fn view(&self) -> FrameActionModel {
        match self {
            FrameAction::NotOperation => FrameActionModel::NotOperation,
            FrameAction::InitResponse => FrameActionModel::InitResponse,
            FrameAction::InternalResponse(resp) => FrameActionModel::InternalResponse(resp@),
            FrameAction::Response(resp) => FrameActionModel::Response(resp@),
            FrameAction::Disconnect => FrameActionModel::Disconnect,
        }
    }
}

/// What a reader makes of a whole inbound frame.  A frame that does not
/// start with `0xF3` or `0xFD` is discarded; the second byte carries the
/// message kind in its low seven bits and the encryption flag in its high
/// bit; an encrypted frame other than the init response fails closed, and
/// an unknown kind is fatal.
pub open spec fn parse_frame(bytes: Seq<u8>) -> Result<FrameActionModel, DecodeError> {
    if bytes.len() < 1 {
        Err(DecodeError::ShortBuffer)
    } else if bytes[0] != 243 && bytes[0] != 253 {
        Ok(FrameActionModel::NotOperation)
    } else if bytes.len() < 2 {
        Err(DecodeError::ShortBuffer)
    } else {
        let kind = bytes[1] % 128;
        let encrypted = bytes[1] >= 128;
        if kind != 1 && encrypted {
            Err(DecodeError::EncryptionUnsupported)
        } else if kind == 1 {
            Ok(FrameActionModel::InitResponse)
        } else if kind == 7 {
            match parse_operation_response(bytes.skip(2)) {
                Err(e) => Err(e),
                Ok(p) => Ok(FrameActionModel::InternalResponse(p.0)),
            }
        } else if kind == 3 {
            match parse_operation_response(bytes.skip(2)) {
                Err(e) => Err(e),
                Ok(p) => Ok(FrameActionModel::Response(p.0)),
            }
        } else if kind == 5 {
            Ok(FrameActionModel::Disconnect)
        } else {
            Err(DecodeError::UnknownKind)
        }
    }
}

/// Reads one inbound frame from its start and says what it asks of the
/// client; transport replies are the caller's to send.
pub fn deserialize_message_and_callback(stream: &mut StreamBuffer) -> (r: Result<
    FrameAction,
    DecodeError,
>)
    requires
        old(stream).wf(),
        old(stream).spec_position() == 0,
    ensures
        final(stream).wf(),
        final(stream).content() == old(stream).content(),
        match parse_frame(old(stream).content()) {
            Ok(m) => r matches Ok(a) && a@ == m,
            Err(e) => r == Err::<FrameAction, DecodeError>(e),
        },
{
    let b = match crate::protocol_v18::read_byte(stream) {
        Ok(b) => b,
        Err(e) => {
            return Err(e);
        },
    };
    if b != 243 && b != 253 {
        return Ok(FrameAction::NotOperation);
    }

    let b2 = match crate::protocol_v18::read_byte(stream) {
        Ok(b) => b,
        Err(e) => {
            return Err(e);
        },
    };
    let b3 = b2 & 0x7F;
    let flag = (b2 & 0x80) > 0;
    proof {
        assert(b2 & 0x7F == b2 % 128) by (bit_vector);
        assert(((b2 & 0x80) > 0) == (b2 >= 128)) by (bit_vector);
    }

    if b3 != 1 {
        if flag {
            return Err(DecodeError::EncryptionUnsupported);
        } else {
            stream.seek(2);
        }
    }

    proof {
        assert(old(stream).content()[0] == b);
        assert(old(stream).content()[1] == b2);
    }
    if b3 == 1 {
        Ok(FrameAction::InitResponse)
    } else if b3 == 7 {
        match crate::protocol_v18::deserialize_operation_response(stream) {
            Ok(resp) => Ok(FrameAction::InternalResponse(resp)),
            Err(e) => Err(e),
        }
    } else if b3 == 3 {
        match crate::protocol_v18::deserialize_operation_response(stream) {
            Ok(resp) => Ok(FrameAction::Response(resp)),
            Err(e) => Err(e),
        }
    } else if b3 == 5 {
        Ok(FrameAction::Disconnect)
    } else {
        Err(DecodeError::UnknownKind)
    }
}

/// The region list carried by a discovery response: the short names at key
/// 210 zipped with the addresses at key 230; arrays of unequal length are a
/// malformed discovery.
pub fn extract_regions(op_res: &OperationResponse) -> (r: Result<Vec<PhotonRegion>, DecodeError>)
    ensures
        ({
            match (op_res.payload.spec_get(REGION), op_res.payload.spec_get(ADDRESS)) {
                (Some(Value::StringArray(names)), Some(Value::StringArray(addresses))) => {
                    if names@.len() == addresses@.len() {
                        r matches Ok(v) && v@.len() == names@.len() && forall|i: int|
                            0 <= i < v@.len() ==> (#[trigger] v@[i]).short_name@
                                == names.deep_view()[i] && v@[i].address@
                                == addresses.deep_view()[i]
                    } else {
                        r == Err::<Vec<PhotonRegion>, DecodeError>(
                            DecodeError::MalformedDiscovery,
                        )
                    }
                },
                _ => r == Err::<Vec<PhotonRegion>, DecodeError>(DecodeError::MalformedDiscovery),
            }
        }),
{
    let names = match op_res.payload.get(REGION) {
        Some(Value::StringArray(names)) => names,
        _ => {
            return Err(DecodeError::MalformedDiscovery);
        },
    };
    let addresses = match op_res.payload.get(ADDRESS) {
        Some(Value::StringArray(addresses)) => addresses,
        _ => {
            return Err(DecodeError::MalformedDiscovery);
        },
    };

    let n = names.len();
    if addresses.len() != n {
        return Err(DecodeError::MalformedDiscovery);
    }

    let mut regions: Vec<PhotonRegion> = Vec::new();
    let mut i: usize = 0;
    while i < n
        invariant
            i <= n,
            n == names@.len(),
            n == addresses@.len(),
            regions@.len() == i,
            forall|j: int|
                0 <= j < i ==> (#[trigger] regions@[j]).short_name@ == names.deep_view()[j]
                    && regions@[j].address@ == addresses.deep_view()[j],
        decreases n - i,
    {
        let short_name = names[i].clone();
        let address = addresses[i].clone();
        regions.push(PhotonRegion { short_name, address });
        i = i + 1;
    }
    Ok(regions)
}

} // verus!
