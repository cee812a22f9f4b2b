use vstd::arithmetic::div_mod::{lemma_add_mod_noop, lemma_mul_mod_noop_right};
use vstd::prelude::*;

use crate::errors::DecodeError;
use crate::parameter_dictionary::{seq_get, unique_keys, ParameterDictionary, Value, ValueModel};
use crate::stream_buffer::StreamBuffer;

verus! {

broadcast use crate::stream_buffer::stream_buffer_wf_bounds;
// ---------------------------------------------------------------------------
// Specification of the wire primitives
// ---------------------------------------------------------------------------
/// The two little-endian bytes of an unsigned 16-bit value.
pub open spec fn ushort_bytes(v: u16) -> Seq<u8> {
    seq![(v % 256) as u8, ((v / 256) % 256) as u8]
}

/// The signed 16-bit value carried by two little-endian bytes.
pub open spec fn i16_of_le(lo: u8, hi: u8) -> int {
    if hi >= 128 {
        lo + 256 * hi - 65536
    } else {
        lo + 256 * hi
    }
}

/// Zig-zag folding of a signed value onto the non-negative integers.
pub open spec fn zigzag_encode(n: int) -> nat {
    if n >= 0 {
        (2 * n) as nat
    } else {
        (-2 * n - 1) as nat
    }
}

/// The inverse unfolding of `zigzag_encode`.
pub open spec fn zigzag_decode(m: nat) -> int {
    if m % 2 == 0 {
        (m / 2) as int
    } else {
        -(((m + 1) / 2) as int)
    }
}

/// The little-endian base-128 encoding of `v`: seven payload bits per byte,
/// the high bit flagging a continuation.
pub open spec fn varint_bytes(v: nat) -> Seq<u8>
    decreases v,
{
    if v < 128 {
        seq![v as u8]
    } else {
        seq![(128 + v % 128) as u8] + varint_bytes(v / 128)
    }
}

/// What a reader makes of the head of `bytes` as a varint, having already
/// consumed `depth` continuation bytes: the decoded value (untruncated) and
/// the bytes consumed, or `None` when the frame ends inside the varint.  A
/// reader consumes at most five bytes and ignores the fifth byte's
/// continuation bit.
pub open spec fn parse_varint_from(bytes: Seq<u8>, depth: nat) -> Option<(nat, int)>
    decreases 5 - depth,
{
    if depth >= 5 {
        Some((0, 0))
    } else if bytes.len() == 0 {
        None
    } else if bytes[0] < 128 {
        Some((bytes[0] as nat, 1))
    } else {
        match parse_varint_from(bytes.skip(1), (depth + 1) as nat) {
            None => None,
            Some(p) => Some(((bytes[0] - 128) as nat + 128 * p.0, p.1 + 1)),
        }
    }
}

/// The value a reader returns for the varint at the head of `bytes`, reduced
/// to 32 bits, and the bytes consumed.
pub open spec fn parse_varint(bytes: Seq<u8>) -> Option<(u32, int)> {
    match parse_varint_from(bytes, 0) {
        None => None,
        Some(p) => Some(((p.0 % 0x1_0000_0000) as u32, p.1)),
    }
}

proof fn lemma_parse_varint_from_len(bytes: Seq<u8>, depth: nat)
    requires
        depth <= 5,
    ensures
        parse_varint_from(bytes, depth) matches Some(p) ==> 0 <= p.1 <= bytes.len() && depth
            + p.1 <= 5,
    decreases 5 - depth,
{
    if depth >= 5 {
    } else if bytes.len() == 0 {
    } else if bytes[0] < 128 {
    } else {
        lemma_parse_varint_from_len(bytes.skip(1), (depth + 1) as nat);
        match parse_varint_from(bytes.skip(1), (depth + 1) as nat) {
            None => {},
            Some(q) => {
                assert(parse_varint_from(bytes, depth) == Some(
                    ((bytes[0] - 128) as nat + 128 * q.0, q.1 + 1),
                ));
                assert(0 <= q.1 <= bytes.skip(1).len());
            },
        }
    }
}

/// A varint reader consumes at most five bytes and never more than there
/// are.
pub proof fn lemma_parse_varint_len(bytes: Seq<u8>)
    ensures
        parse_varint(bytes) matches Some(p) ==> 0 <= p.1 <= bytes.len() && p.1 <= 5,
{
    lemma_parse_varint_from_len(bytes, 0);
}

// ---------------------------------------------------------------------------
// Scalar readers and writers
// ---------------------------------------------------------------------------
/// Reads one byte, or `ShortBuffer` at the end of the frame.
pub fn read_byte(stream: &mut StreamBuffer) -> (r: Result<u8, DecodeError>)
    requires
        old(stream).wf(),
    ensures
        final(stream).wf(),
        final(stream).content() == old(stream).content(),
        if old(stream).spec_position() < old(stream).content().len() {
            r == Ok::<u8, DecodeError>(
                old(stream).content()[old(stream).spec_position() as int],
            ) && final(stream).spec_position() == old(stream).spec_position() + 1
        } else {
            r == Err::<u8, DecodeError>(DecodeError::ShortBuffer) && final(stream).spec_position()
                == old(stream).spec_position()
        },
{
    match stream.try_read_byte() {
        Some(b) => Ok(b),
        None => Err(DecodeError::ShortBuffer),
    }
}

/// Reads a signed 16-bit little-endian value.
pub fn read_int16(stream: &mut StreamBuffer) -> (r: Result<i16, DecodeError>)
    requires
        old(stream).wf(),
    ensures
        final(stream).wf(),
        final(stream).content() == old(stream).content(),
        if old(stream).spec_position() + 2 <= old(stream).content().len() {
            {
                let lo = old(stream).content()[old(stream).spec_position() as int];
                let hi = old(stream).content()[old(stream).spec_position() as int + 1];
                r matches Ok(v) && v as int == i16_of_le(lo, hi) && final(stream).spec_position()
                    == old(stream).spec_position() + 2
            }
        } else {
            r == Err::<i16, DecodeError>(DecodeError::ShortBuffer)
        },
{
    let byte1 = match read_byte(stream) {
        Ok(b) => b,
        Err(e) => {
            return Err(e);
        },
    };
    let byte2 = match read_byte(stream) {
        Ok(b) => b,
        Err(e) => {
            return Err(e);
        },
    };

    let v = (byte1 as i16) | ((byte2 as i16) << 8);
    proof {
        assert(byte2 < 128 ==> ((byte1 as i16) | ((byte2 as i16) << 8)) == byte1 + 256 * byte2)
            by (bit_vector);
        assert(byte2 >= 128 ==> ((byte1 as i16) | ((byte2 as i16) << 8)) == byte1 + 256 * byte2
            - 65536) by (bit_vector);
    }
    Ok(v)
}

/// Writes one byte, with the wire quirk of the relay's producer: under
/// `write_type`, a zero byte is sent as the bare `FloatZero` tag and any
/// other byte as the `Byte` tag followed by the byte.
pub fn write_byte(stream: &mut StreamBuffer, value: u8, write_type: bool)
    requires
        old(stream).wf(),
        old(stream).spec_position() == old(stream).content().len(),
        old(stream).content().len() + 2 <= usize::MAX,
    ensures
        final(stream).wf(),
        final(stream).spec_position() == final(stream).content().len(),
        final(stream).content() == old(stream).content() + (if write_type {
            if value == 0 {
                seq![32u8]
            } else {
                seq![98u8, value]
            }
        } else {
            seq![value]
        }),
{
    if write_type {
        if value == 0 {
            stream.write_gp_type(crate::gp_type::GpType::FloatZero);
            proof {
                assert(final(stream).content() =~= old(stream).content() + seq![32u8]);
            }
            return ;
        }
        stream.write_gp_type(crate::gp_type::GpType::Byte);
    }

    stream.write_byte(value);
    proof {
        if write_type {
            assert(final(stream).content() =~= old(stream).content() + seq![98u8, value]);
        } else {
            assert(final(stream).content() =~= old(stream).content() + seq![value]);
        }
    }
}

/// Writes an unsigned 16-bit value little-endian.
pub fn write_ushort(stream: &mut StreamBuffer, value: u16)
    requires
        old(stream).wf(),
        old(stream).spec_position() == old(stream).content().len(),
        old(stream).content().len() + 2 <= usize::MAX,
    ensures
        final(stream).wf(),
        final(stream).spec_position() == final(stream).content().len(),
        final(stream).content() == old(stream).content() + ushort_bytes(value),
{
    proof {
        assert(value as u8 == value % 256) by (bit_vector);
        assert((value >> 8) as u8 == (value / 256) % 256) by (bit_vector);
    }
    stream.write_byte(value as u8);
    stream.write_byte((value >> 8) as u8);
    proof {
        assert(final(stream).content() =~= old(stream).content() + ushort_bytes(value));
    }
}

/// Folds a signed 32-bit value onto the unsigned range, small magnitudes
/// first.
pub fn encode_zigzag32(value: i32) -> (r: u32)
    ensures
        r as nat == zigzag_encode(value as int),
{
    if value >= 0 {
        (value as u32) * 2
    } else {
        let magnitude = -(value as i64);
        (2 * magnitude - 1) as u32
    }
}

/// Unfolds a zig-zag value back onto the signed range.
pub fn decode_zigzag32(value: u32) -> (r: i32)
    ensures
        r as int == zigzag_decode(value as nat),
{
    let half = (value / 2) as i32;
    if value % 2 == 0 {
        half
    } else {
        -half - 1
    }
}

/// Zig-zag is a bijection: unfolding after folding gives the value back.
pub proof fn lemma_zigzag_round_trip(n: int)
    requires
        i32::MIN <= n <= i32::MAX,
    ensures
        zigzag_decode(zigzag_encode(n)) == n,
{
    if n >= 0 {
        assert((2 * n) % 2 == 0) by {
            lemma_mul_mod_noop_right(2, n, 2);
        }
    } else {
        assert((-2 * n - 1) % 2 == 1) by {
            lemma_mul_mod_noop_right(2, -n, 2);
        }
    }
}

// ---------------------------------------------------------------------------
// Varints
// ---------------------------------------------------------------------------
/// A varint is never empty.
pub proof fn lemma_varint_len_pos(v: nat)
    ensures
        varint_bytes(v).len() >= 1,
    decreases v,
{
    if v >= 128 {
        lemma_varint_len_pos(v / 128);
    }
}

/// A 32-bit value's varint takes at most five bytes.
pub proof fn lemma_varint_len(v: nat)
    requires
        v < 0x1_0000_0000,
    ensures
        1 <= varint_bytes(v).len() <= 5,
{
    lemma_varint_len_pos(v);
    if v >= 128 {
        let v1 = v / 128;
        assert(128 * v1 <= v);
        assert(v1 < 0x200_0000);
        lemma_varint_len_pos(v1);
        if v1 >= 128 {
            let v2 = v1 / 128;
            assert(128 * v2 <= v1);
            assert(v2 < 0x4_0000);
            lemma_varint_len_pos(v2);
            if v2 >= 128 {
                let v3 = v2 / 128;
                assert(128 * v3 <= v2);
                assert(v3 < 0x800);
                lemma_varint_len_pos(v3);
                if v3 >= 128 {
                    let v4 = v3 / 128;
                    assert(128 * v4 <= v3);
                    assert(v4 < 128);
                    assert(varint_bytes(v4).len() == 1);
                }
            }
        }
    }
}

/// Writes the varint of `value` into the head of `buffer` and returns how
/// many bytes it used; the rest of the buffer is untouched.
pub fn write_compressed_uint32(buffer: &mut Vec<u8>, value: u32) -> (n: usize)
    requires
        old(buffer)@.len() >= 5,
    ensures
        n == varint_bytes(value as nat).len(),
        1 <= n <= 5,
        final(buffer)@.len() == old(buffer)@.len(),
        final(buffer)@.take(n as int) == varint_bytes(value as nat),
        forall|i: int| n <= i < final(buffer)@.len() ==> final(buffer)@[i] == old(buffer)@[i],
{
    proof {
        lemma_varint_len(value as nat);
    }
    let mut num: usize = 0;
    proof {
        assert(value & 0x7F == value % 128) by (bit_vector);
        assert(value >> 7 == value / 128) by (bit_vector);
    }
    buffer[0] = (value & 0x7F) as u8;
    let ghost orig = old(buffer)@;
    let ghost v0 = value as nat;
    let mut value = value >> 7;

    while value != 0
        invariant
            buffer@.len() == orig.len() >= 5,
            num + 1 < buffer@.len() || value == 0,
            ({
                let w = (buffer@[num as int] as nat) + 128 * (value as nat);
                &&& varint_bytes(v0) == buffer@.take(num as int) + varint_bytes(w)
                &&& buffer@[num as int] == w % 128
                &&& value == w / 128
                &&& num + varint_bytes(w).len() <= 5
            }),
            forall|i: int| num < i < buffer@.len() ==> buffer@[i] == orig[i],
        decreases value,
    {
        let ghost w = (buffer@[num as int] as nat) + 128 * (value as nat);
        proof {
            assert(w >= 128) by {
                assert(value >= 1);
            }
            assert(w % 128 < 128);
        }
        let b = buffer[num] | 128;
        proof {
            let bb = buffer@[num as int];
            assert(bb < 128 ==> (bb | 128) == 128 + bb) by (bit_vector);
        }
        buffer[num] = b;
        proof {
            assert(value & 0x7F == value % 128) by (bit_vector);
            assert(value >> 7 == value / 128) by (bit_vector);
        }
        buffer[num + 1] = (value & 0x7F) as u8;
        num = num + 1;
        value = value >> 7;
        proof {
            assert(buffer@.take(num as int) =~= buffer@.take(num - 1) + seq![
                buffer@[num - 1],
            ]);
            assert(varint_bytes(w) == seq![(128 + w % 128) as u8] + varint_bytes(w / 128));
            let w2 = (buffer@[num as int] as nat) + 128 * (value as nat);
            if value != 0 {
                assert(w2 >= 128);
                assert(varint_bytes(w2) == seq![(128 + w2 % 128) as u8] + varint_bytes(
                    w2 / 128,
                ));
                lemma_varint_len_pos(w2 / 128);
            }
        }
    }

    proof {
        let w = (buffer@[num as int] as nat) + 128 * (value as nat);
        assert(w < 128);
        assert(varint_bytes(w) =~= seq![w as u8]);
        assert(buffer@.take(num + 1) =~= buffer@.take(num as int) + seq![buffer@[num as int]]);
    }
    num + 1
}

/// Appends the varint of `value` to the stream.
pub fn write_compressed_uint32_to_stream(stream: &mut StreamBuffer, value: u32)
    requires
        old(stream).wf(),
        old(stream).spec_position() == old(stream).content().len(),
        old(stream).content().len() + 5 <= usize::MAX,
    ensures
        final(stream).wf(),
        final(stream).spec_position() == final(stream).content().len(),
        final(stream).content() == old(stream).content() + varint_bytes(value as nat),
{
    let mut mem_compressed_uint32: Vec<u8> = vec![0u8; 5];
    let bytes_written = write_compressed_uint32(&mut mem_compressed_uint32, value);

    let mut i: usize = 0;
    while i < bytes_written
        invariant
            i <= bytes_written,
            bytes_written <= mem_compressed_uint32@.len(),
            mem_compressed_uint32@.take(bytes_written as int) == varint_bytes(value as nat),
            stream.wf(),
            stream.spec_position() == stream.content().len(),
            old(stream).content().len() + 5 <= usize::MAX,
            bytes_written <= 5,
            stream.content() == old(stream).content() + varint_bytes(value as nat).take(
                i as int,
            ),
        decreases bytes_written - i,
    {
        stream.write_byte(mem_compressed_uint32[i]);
        proof {
            let vb = varint_bytes(value as nat);
            assert(mem_compressed_uint32@.take(bytes_written as int)[i as int]
                == mem_compressed_uint32@[i as int]);
            assert(stream.content() =~= old(stream).content() + vb.take(i + 1));
        }
        i = i + 1;
    }
    proof {
        assert(varint_bytes(value as nat).take(bytes_written as int) =~= varint_bytes(
            value as nat,
        ));
    }
}

/// Reads the varint under the cursor, `depth` continuation bytes having been
/// consumed already.
fn read_varint_from(stream: &mut StreamBuffer, depth: u8) -> (r: Result<u32, DecodeError>)
    requires
        old(stream).wf(),
        depth <= 5,
    ensures
        final(stream).wf(),
        final(stream).content() == old(stream).content(),
        ({
            let rem = old(stream).content().skip(old(stream).spec_position() as int);
            match parse_varint_from(rem, depth as nat) {
                Some(p) => r matches Ok(v) && v as nat == p.0 % 0x1_0000_0000
                    && final(stream).spec_position() == old(stream).spec_position() + p.1,
                None => r == Err::<u32, DecodeError>(DecodeError::ShortBuffer),
            }
        }),
    decreases 5 - depth,
{
    if depth >= 5 {
        return Ok(0);
    }
    let ghost rem = old(stream).content().skip(old(stream).spec_position() as int);
    match stream.try_read_byte() {
        None => {
            proof {
                assert(rem =~= Seq::<u8>::empty());
            }
            Err(DecodeError::ShortBuffer)
        },
        Some(b) => {
            proof {
                assert(rem[0] == b);
            }
            if b < 128 {
                Ok(b as u32)
            } else {
                let ghost rem2 = stream.content().skip(stream.spec_position() as int);
                proof {
                    assert(rem2 =~= rem.skip(1));
                }
                match read_varint_from(stream, depth + 1) {
                    Err(e) => Err(e),
                    Ok(rest) => {
                        let low = (b - 128) as u32;
                        let r = low | (rest << 7);
                        proof {
                            let p = parse_varint_from(rem.skip(1), (depth + 1) as nat).unwrap();
                            assert(low < 128 ==> ((low | (rest << 7)) as u64) == ((low as u64)
                                + 128 * (rest as u64)) % 0x1_0000_0000) by (bit_vector);
                            assert(rest as nat == p.0 % 0x1_0000_0000);
                            lemma_mul_mod_noop_right(128, p.0 as int, 0x1_0000_0000);
                            lemma_add_mod_noop(
                                low as int,
                                128 * (p.0 as int),
                                0x1_0000_0000,
                            );
                            lemma_add_mod_noop(
                                low as int,
                                128 * ((p.0 % 0x1_0000_0000) as int),
                                0x1_0000_0000,
                            );
                            assert((low as nat) % 0x1_0000_0000 == low as nat);
                        }
                        Ok(r)
                    },
                }
            }
        },
    }
}

/// Reads the varint under the cursor; on a frame that ends inside the
/// varint, the cursor is left at the end and `ShortBuffer` is returned.
pub fn read_compressed_uint32(stream: &mut StreamBuffer) -> (r: Result<u32, DecodeError>)
    requires
        old(stream).wf(),
    ensures
        final(stream).wf(),
        final(stream).content() == old(stream).content(),
        ({
            let rem = old(stream).content().skip(old(stream).spec_position() as int);
            match parse_varint(rem) {
                Some(p) => r == Ok::<u32, DecodeError>(p.0) && final(stream).spec_position()
                    == old(stream).spec_position() + p.1,
                None => r == Err::<u32, DecodeError>(DecodeError::ShortBuffer)
                    && final(stream).spec_position() == final(stream).content().len(),
            }
        }),
{
    match read_varint_from(stream, 0) {
        Ok(v) => Ok(v),
        Err(e) => {
            let end = stream.length();
            stream.seek(end);
            Err(e)
        },
    }
}

// ---------------------------------------------------------------------------
// Values
// ---------------------------------------------------------------------------
/// The tagged wire encoding of a signed 32-bit value, in the most compact
/// form a producer may choose: `IntZero` for zero, one unsigned byte for
/// magnitudes up to 255, an unsigned 16-bit value up to 65535 (negated
/// magnitudes under their own tags), and a zig-zag varint beyond.
pub open spec fn int_encoding(v: i32) -> Seq<u8> {
    if v == 0 {
        seq![30u8]
    } else if 0 < v <= 255 {
        seq![11u8, v as u8]
    } else if 255 < v <= 65535 {
        seq![13u8] + ushort_bytes(v as u16)
    } else if -255 <= v < 0 {
        seq![12u8, (0 - v) as u8]
    } else if -65535 <= v < -255 {
        seq![14u8] + ushort_bytes((0 - v) as u16)
    } else {
        seq![9u8] + varint_bytes(zigzag_encode(v as int))
    }
}

/// The length-prefixed UTF-8 payload of a text value, without its tag.
pub open spec fn string_payload(s: Seq<char>) -> Seq<u8> {
    varint_bytes(vstd::utf8::encode_utf8(s).len()) + vstd::utf8::encode_utf8(s)
}

/// The values a producer can put in a parameter table: signed 32-bit
/// integers and texts of at most 32767 UTF-8 bytes.
pub open spec fn encodable(m: ValueModel) -> bool {
    match m {
        ValueModel::Int(_) => true,
        ValueModel::Str(s) => vstd::utf8::encode_utf8(s).len()
            <= 32767,
        _ => false,
    }
}

/// The tagged wire encoding of an encodable value.
pub open spec fn value_encoding(m: ValueModel) -> Seq<u8> {
    match m {
        ValueModel::Int(i) => int_encoding(i),
        ValueModel::Str(s) => seq![7u8] + string_payload(s),
        _ => seq![],
    }
}

/// The untagged wire encoding of an encodable value: integers are always
/// zig-zag varints there.
pub open spec fn value_encoding_untagged(m: ValueModel) -> Seq<u8> {
    match m {
        ValueModel::Int(i) => varint_bytes(
            zigzag_encode(i as int),
        ),
        ValueModel::Str(s) => string_payload(s),
        _ => seq![],
    }
}

/// What a reader makes of one length-prefixed text at the head of `bytes`:
/// its characters and the bytes consumed.
pub open spec fn parse_text(bytes: Seq<u8>) -> Result<(Seq<char>, int), DecodeError> {
    match parse_varint(bytes) {
        None => Err(DecodeError::ShortBuffer),
        Some((len, k)) => {
            if bytes.skip(k).len() < len {
                Err(DecodeError::ShortBuffer)
            } else {
                let data = bytes.skip(k).take(len as int);
                if !vstd::utf8::valid_utf8(data) {
                    Err(DecodeError::MalformedText)
                } else {
                    Ok((vstd::utf8::decode_utf8(data), k + len))
                }
            }
        },
    }
}

/// A text reader consumes no more bytes than there are.
pub proof fn lemma_parse_text_len(bytes: Seq<u8>)
    ensures
        parse_text(bytes) matches Ok(p) ==> 0 <= p.1 <= bytes.len(),
{
    lemma_parse_varint_len(bytes);
}

/// What a reader makes of `n` length-prefixed texts at the head of `bytes`:
/// their characters and the bytes consumed.
pub open spec fn parse_string_items(bytes: Seq<u8>, n: nat) -> Result<
    (Seq<Seq<char>>, int),
    DecodeError,
>
    decreases n,
{
    if n == 0 {
        Ok((seq![], 0))
    } else {
        match parse_text(bytes) {
            Err(e) => Err(e),
            Ok((text, k)) => match parse_string_items(bytes.skip(k), (n - 1) as nat) {
                Err(e) => Err(e),
                Ok((rest, m)) => Ok((seq![text] + rest, k + m)),
            },
        }
    }
}

/// What a reader makes of a value whose type tag `t` has been consumed and
/// whose body stands at the head of `bytes`: the value and the bytes
/// consumed, or why decoding fails.  Tags in the reserved range `128..=228`
/// and tags this codec does not speak fail with `UnsupportedType`.
pub open spec fn parse_value(t: u8, bytes: Seq<u8>) -> Result<(ValueModel, int), DecodeError> {
    let short: Result<(ValueModel, int), DecodeError> = Err(DecodeError::ShortBuffer);
    if 128 <= t <= 228 {
        Err(DecodeError::UnsupportedType)
    } else if t == 11 {
        if bytes.len() < 1 {
            short
        } else {
            Ok((ValueModel::Int(bytes[0] as i32), 1))
        }
    } else if t == 12 {
        if bytes.len() < 1 {
            short
        } else {
            Ok((ValueModel::Int((0 - bytes[0]) as i32), 1))
        }
    } else if t == 13 {
        if bytes.len() < 2 {
            short
        } else {
            Ok(
                (
                    ValueModel::Int(
                        (bytes[0] + 256 * bytes[1]) as i32,
                    ),
                    2,
                ),
            )
        }
    } else if t == 14 {
        if bytes.len() < 2 {
            short
        } else {
            Ok(
                (
                    ValueModel::Int(
                        (0 - (bytes[0] + 256 * bytes[1])) as i32,
                    ),
                    2,
                ),
            )
        }
    } else if t == 115 {
        if bytes.len() < 2 {
            short
        } else {
            Ok(
                (
                    ValueModel::Int(
                        i16_of_le(bytes[0], bytes[1]) as i32,
                    ),
                    2,
                ),
            )
        }
    } else if t == 98 {
        if bytes.len() < 1 {
            short
        } else {
            Ok((ValueModel::Byte(bytes[0]), 1))
        }
    } else if t == 7 {
        match parse_text(bytes) {
            Err(e) => Err(e),
            Ok((text, k)) => Ok((ValueModel::Str(text), k)),
        }
    } else if t == 42 {
        Ok((ValueModel::Null, 0))
    } else if t == 9 {
        match parse_varint(bytes) {
            None => short,
            Some((v, k)) => Ok(
                (
                    ValueModel::Int(
                        zigzag_decode(v as nat) as i32,
                    ),
                    k,
                ),
            ),
        }
    } else if t == 30 {
        Ok((ValueModel::Int(0), 0))
    } else if t == 71 {
        match parse_varint(bytes) {
            None => short,
            Some((n, k)) => match parse_string_items(bytes.skip(k), n as nat) {
                Err(e) => Err(e),
                Ok((items, m)) => Ok(
                    (ValueModel::Strings(items), k + m),
                ),
            },
        }
    } else if t == 32 {
        Ok((ValueModel::Byte(0), 0))
    } else {
        Err(DecodeError::UnsupportedType)
    }
}

// ---------------------------------------------------------------------------
// Value writers
// ---------------------------------------------------------------------------
/// Appends the varint of a length field.
pub fn write_int_length(stream: &mut StreamBuffer, value: usize)
    requires
        old(stream).wf(),
        old(stream).spec_position() == old(stream).content().len(),
        old(stream).content().len() + 5 <= usize::MAX,
        value <= u32::MAX,
    ensures
        final(stream).wf(),
        final(stream).spec_position() == final(stream).content().len(),
        final(stream).content() == old(stream).content() + varint_bytes(value as nat),
{
    write_compressed_uint32_to_stream(stream, value as u32);
}

/// Appends a signed 32-bit value.  Under `write_type` the most compact
/// tagged form is chosen; without it the value is always a zig-zag varint.
pub fn write_compressed_int(stream: &mut StreamBuffer, value: i32, write_type: bool)
    requires
        old(stream).wf(),
        old(stream).spec_position() == old(stream).content().len(),
        old(stream).content().len() + 6 <= usize::MAX,
    ensures
        final(stream).wf(),
        final(stream).spec_position() == final(stream).content().len(),
        final(stream).content() == old(stream).content() + (if write_type {
            int_encoding(value)
        } else {
            varint_bytes(zigzag_encode(value as int))
        }),
{
    if write_type {
        if value == 0 {
            stream.write_gp_type(crate::gp_type::GpType::IntZero);
            proof {
                assert(final(stream).content() =~= old(stream).content() + int_encoding(
                    value,
                ));
            }
            return ;
        }
        if value > 0 {
            if value <= 255 {
                stream.write_gp_type(crate::gp_type::GpType::Int1);
                stream.write_byte(value as u8);
                proof {
                    assert(final(stream).content() =~= old(stream).content() + int_encoding(
                        value,
                    ));
                }
                return ;
            }
            if value <= 65535 {
                stream.write_gp_type(crate::gp_type::GpType::Int2);
                write_ushort(stream, value as u16);
                proof {
                    assert(final(stream).content() =~= old(stream).content() + int_encoding(
                        value,
                    ));
                }
                return ;
            }
        } else if value >= -65535 {
            if value >= -255 {
                stream.write_gp_type(crate::gp_type::GpType::Int1_);
                stream.write_byte((-value) as u8);
                proof {
                    assert(final(stream).content() =~= old(stream).content() + int_encoding(
                        value,
                    ));
                }
                return ;
            }
            stream.write_gp_type(crate::gp_type::GpType::Int2_);
            write_ushort(stream, (-value) as u16);
            proof {
                assert(final(stream).content() =~= old(stream).content() + int_encoding(
                    value,
                ));
            }
            return ;
        }
    }

    if write_type {
        stream.write_gp_type(crate::gp_type::GpType::CompressedInt);
    }

    let value2 = encode_zigzag32(value);
    write_compressed_uint32_to_stream(stream, value2);
    proof {
        if write_type {
            assert(final(stream).content() =~= old(stream).content() + int_encoding(value));
        }
    }
}

/// Appends a text value: its tag where asked, then the varint byte length
/// and the UTF-8 bytes.  Texts longer than 32767 bytes do not fit the wire
/// format.
pub fn write_string(stream: &mut StreamBuffer, value: &str, write_type: bool)
    requires
        old(stream).wf(),
        old(stream).spec_position() == old(stream).content().len(),
        vstd::utf8::encode_utf8(value@).len() <= 32767,
        old(stream).content().len() + vstd::utf8::encode_utf8(value@).len() + 6
            <= usize::MAX,
    ensures
        final(stream).wf(),
        final(stream).spec_position() == final(stream).content().len(),
        final(stream).content() == old(stream).content() + (if write_type {
            seq![7u8]
        } else {
            Seq::<u8>::empty()
        }) + string_payload(value@),
{
    if write_type {
        stream.write_gp_type(crate::gp_type::GpType::String);
    }

    let count = value.len();
    proof {
        lemma_varint_len(count as nat);
    }
    write_int_length(stream, count);
    stream.write(value.as_bytes());
    proof {
        assert(final(stream).content() =~= old(stream).content() + (if write_type {
            seq![7u8]
        } else {
            Seq::<u8>::empty()
        }) + string_payload(value@));
    }
}

/// Appends an encodable value: a signed 32-bit integer or a text.
pub fn write(stream: &mut StreamBuffer, value: &Value, write_type: bool)
    requires
        old(stream).wf(),
        old(stream).spec_position() == old(stream).content().len(),
        encodable(value@),
        old(stream).content().len() + value_encoding(value@).len() + 7 <= usize::MAX,
    ensures
        final(stream).wf(),
        final(stream).spec_position() == final(stream).content().len(),
        final(stream).content() == old(stream).content() + (if write_type {
            value_encoding(value@)
        } else {
            value_encoding_untagged(value@)
        }),
{
    match value {
        Value::Int(v) => {
            proof {
                lemma_varint_len(zigzag_encode(*v as int));
            }
            write_compressed_int(stream, *v, write_type);
        },
        Value::String(s) => {
            write_string(stream, s.as_str(), write_type);
            proof {
                assert(final(stream).content() =~= old(stream).content() + (if write_type {
                    value_encoding(value@)
                } else {
                    value_encoding_untagged(value@)
                }));
            }
        },
        _ => {
            proof {
                assert(false);
            }
        },
    }
}

// ---------------------------------------------------------------------------
// Value readers
// ---------------------------------------------------------------------------
/// Relies on String::from_utf8: it succeeds exactly on valid UTF-8 and
/// returns the characters that the bytes encode.
#[verifier::external_body]
fn bytes_to_string(bytes: Vec<u8>) -> (r: Option<String>)
    ensures
        r is Some <==> vstd::utf8::valid_utf8(bytes@),
        r matches Some(s) ==> s@ == vstd::utf8::decode_utf8(bytes@),
{
    match String::from_utf8(bytes) {
        Ok(s) => Some(s),
        Err(_) => None,
    }
}

/// Reads a zig-zag varint as a signed value.
pub fn read_compressed_int32(stream: &mut StreamBuffer) -> (r: Result<i32, DecodeError>)
    requires
        old(stream).wf(),
    ensures
        final(stream).wf(),
        final(stream).content() == old(stream).content(),
        ({
            let rem = old(stream).content().skip(old(stream).spec_position() as int);
            match parse_varint(rem) {
                Some(p) => r matches Ok(v) && v as int == zigzag_decode(p.0 as nat)
                    && final(stream).spec_position() == old(stream).spec_position() + p.1,
                None => r == Err::<i32, DecodeError>(DecodeError::ShortBuffer),
            }
        }),
{
    match read_compressed_uint32(stream) {
        Ok(v) => Ok(decode_zigzag32(v)),
        Err(e) => Err(e),
    }
}

/// Reads one length-prefixed text.
fn read_length_prefixed_text(stream: &mut StreamBuffer) -> (r: Result<String, DecodeError>)
    requires
        old(stream).wf(),
    ensures
        final(stream).wf(),
        final(stream).content() == old(stream).content(),
        ({
            let rem = old(stream).content().skip(old(stream).spec_position() as int);
            match parse_text(rem) {
                Ok(p) => r matches Ok(s) && s@ == p.0
                    && final(stream).spec_position() == old(stream).spec_position() + p.1,
                Err(e) => r == Err::<String, DecodeError>(e),
            }
        }),
{
    let ghost rem = old(stream).content().skip(old(stream).spec_position() as int);
    let length32 = match read_compressed_uint32(stream) {
        Ok(v) => v,
        Err(e) => {
            return Err(e);
        },
    };
    let ghost k = parse_varint(rem).unwrap().1;
    proof {
        lemma_parse_varint_len(rem);
        assert(rem.skip(k) =~= old(stream).content().skip(
            old(stream).spec_position() + k,
        ));
    }
    let length = length32 as usize;
    if stream.remaining() < length {
        return Err(DecodeError::ShortBuffer);
    }
    let ghost data = rem.skip(k).take(length32 as int);
    let bytes = stream.read(length);
    proof {
        assert(bytes@ =~= data);
    }
    match bytes_to_string(bytes) {
        Some(s) => Ok(s),
        None => Err(DecodeError::MalformedText),
    }
}

/// Reads a varint count of length-prefixed texts.
pub fn read_string_array(stream: &mut StreamBuffer) -> (r: Result<Vec<String>, DecodeError>)
    requires
        old(stream).wf(),
    ensures
        final(stream).wf(),
        final(stream).content() == old(stream).content(),
        ({
            let rem = old(stream).content().skip(old(stream).spec_position() as int);
            match parse_varint(rem) {
                None => r == Err::<Vec<String>, DecodeError>(DecodeError::ShortBuffer),
                Some((n, k)) => match parse_string_items(rem.skip(k), n as nat) {
                    Ok(p) => r matches Ok(items) && items.deep_view() == p.0
                        && final(stream).spec_position() == old(stream).spec_position() + k
                        + p.1,
                    Err(e) => r == Err::<Vec<String>, DecodeError>(e),
                },
            }
        }),
{
    let ghost rem = old(stream).content().skip(old(stream).spec_position() as int);
    let count32 = match read_compressed_uint32(stream) {
        Ok(v) => v,
        Err(e) => {
            return Err(e);
        },
    };
    let ghost k = parse_varint(rem).unwrap().1;
    let ghost content0 = stream.content();
    let ghost pos_k = stream.spec_position();
    let ghost rem_k = content0.skip(pos_k as int);
    proof {
        lemma_parse_varint_len(rem);
        assert(rem_k =~= rem.skip(k));
    }

    let count = count32 as usize;
    let mut strings: Vec<String> = Vec::new();
    let mut i: usize = 0;
    while i < count
        invariant
            i <= count,
            count == count32,
            stream.wf(),
            stream.content() == content0,
            content0 == old(stream).content(),
            rem == old(stream).content().skip(old(stream).spec_position() as int),
            parse_varint(rem) == Some((count32, k)),
            rem_k == rem.skip(k),
            rem_k == content0.skip(pos_k as int),
            pos_k == old(stream).spec_position() + k,
            pos_k <= stream.spec_position(),
            strings.deep_view().len() == i,
            ({
                let here = content0.skip(stream.spec_position() as int);
                match parse_string_items(here, (count - i) as nat) {
                    Ok(p) => parse_string_items(rem_k, count32 as nat) matches Ok(q) && q.0
                        == strings.deep_view() + p.0 && q.1 == stream.spec_position() - pos_k
                        + p.1,
                    Err(e) => parse_string_items(rem_k, count32 as nat) == Err::<
                        (Seq<Seq<char>>, int),
                        DecodeError,
                    >(e),
                }
            }),
        decreases count - i,
    {
        let ghost here = content0.skip(stream.spec_position() as int);
        let s = match read_length_prefixed_text(stream) {
            Ok(s) => s,
            Err(e) => {
                return Err(e);
            },
        };
        let ghost prev_deep = strings.deep_view();
        strings.push(s);
        i = i + 1;
        proof {
            lemma_parse_text_len(here);
            let p = parse_text(here).unwrap();
            let here2 = content0.skip(stream.spec_position() as int);
            assert(here2 =~= here.skip(p.1));
            assert(strings.deep_view() =~= prev_deep.push(p.0));
            assert((count - (i - 1)) as nat != 0);
            match parse_string_items(here2, (count - i) as nat) {
                Ok(p2) => {
                    assert(parse_string_items(here, (count - (i - 1)) as nat) == Ok::<
                        (Seq<Seq<char>>, int),
                        DecodeError,
                    >((seq![p.0] + p2.0, p.1 + p2.1)));
                    assert(prev_deep + (seq![p.0] + p2.0) =~= strings.deep_view() + p2.0);
                },
                Err(e) => {
                    assert(parse_string_items(here, (count - (i - 1)) as nat) == Err::<
                        (Seq<Seq<char>>, int),
                        DecodeError,
                    >(e));
                },
            }
        }
    }
    proof {
        let here = content0.skip(stream.spec_position() as int);
        assert(parse_string_items(here, (count - i) as nat) == Ok::<
            (Seq<Seq<char>>, int),
            DecodeError,
        >((Seq::<Seq<char>>::empty(), 0)));
        let q = parse_string_items(rem_k, count32 as nat).unwrap();
        assert(strings.deep_view() =~= strings.deep_view() + Seq::<Seq<char>>::empty());
    }
    Ok(strings)
}

// ---------------------------------------------------------------------------
// Parameter tables and operation requests
// ---------------------------------------------------------------------------
/// The wire bytes of a run of table entries: each key followed by its tagged
/// value.
pub open spec fn entries_encoding(entries: Seq<(u8, ValueModel)>) -> Seq<u8>
    decreases entries.len(),
{
    if entries.len() == 0 {
        seq![]
    } else {
        seq![entries[0].0] + value_encoding(entries[0].1) + entries_encoding(
            entries.drop_first(),
        )
    }
}

/// The wire bytes of a parameter table: the entry count as one byte, then
/// the entries.
pub open spec fn table_encoding(entries: Seq<(u8, ValueModel)>) -> Seq<u8> {
    seq![entries.len() as u8] + entries_encoding(entries)
}

/// A tagged integer needs at most six bytes.
pub proof fn lemma_int_encoding_len(v: i32)
    ensures
        1 <= int_encoding(v).len() <= 6,
{
    if !(v == 0 || (0 < v <= 255) || (255 < v <= 65535) || (-255 <= v < 0) || (-65535 <= v
        < -255)) {
        lemma_varint_len(zigzag_encode(v as int));
    }
}

/// A tagged value needs at most six bytes beyond its text.
pub proof fn lemma_value_encoding_len(m: ValueModel)
    requires
        encodable(m),
    ensures
        1 <= value_encoding(m).len() <= 6 + (match m {
            ValueModel::Str(s) => vstd::utf8::encode_utf8(s).len(),
            _ => 0,
        }),
{
    match m {
        ValueModel::Int(v) => {
            lemma_int_encoding_len(v);
        },
        ValueModel::Str(s) => {
            lemma_varint_len(vstd::utf8::encode_utf8(s).len());
        },
        _ => {},
    }
}

/// A table a producer can write: at most 255 entries, every value
/// encodable.
pub open spec fn table_encodable(entries: Seq<(u8, ValueModel)>) -> bool {
    entries.len() <= 255 && forall|i: int|
        0 <= i < entries.len() ==> encodable(#[trigger] entries[i].1)
}

/// The wire bytes of an operation request: an optional request tag, the
/// opcode, and the parameter table.
pub open spec fn request_encoding(opcode: u8, entries: Seq<(u8, ValueModel)>, set_type: bool) -> Seq<u8> {
    (if set_type {
        seq![2u8]
    } else {
        Seq::<u8>::empty()
    }) + seq![opcode] + table_encoding(entries)
}

/// Encoding a run of entries and then one more appends that entry's bytes.
proof fn lemma_entries_encoding_snoc(s: Seq<(u8, ValueModel)>, e: (u8, ValueModel))
    ensures
        entries_encoding(s.push(e)) == entries_encoding(s) + seq![e.0] + value_encoding(e.1),
    decreases s.len(),
{
    let t = s.push(e);
    assert(t[s.len() as int] == e);
    if s.len() == 0 {
        assert(t[0] == e);
        assert(t.drop_first() =~= Seq::<(u8, ValueModel)>::empty());
        assert(entries_encoding(Seq::<(u8, ValueModel)>::empty()) == Seq::<u8>::empty());
        assert(entries_encoding(t) == seq![e.0] + value_encoding(e.1) + Seq::<u8>::empty());
        assert(entries_encoding(t) =~= entries_encoding(s) + seq![e.0] + value_encoding(e.1));
    } else {
        assert(t.drop_first() =~= s.drop_first().push(e));
        lemma_entries_encoding_snoc(s.drop_first(), e);
        assert(t[0] == s[0]);
        assert(entries_encoding(t) == seq![s[0].0] + value_encoding(s[0].1) + entries_encoding(
            t.drop_first(),
        ));
        assert(entries_encoding(t) =~= entries_encoding(s) + seq![e.0] + value_encoding(e.1));
    }
}

/// The entry bytes split at any boundary between entries.
proof fn lemma_entries_encoding_split(s: Seq<(u8, ValueModel)>, i: int)
    requires
        0 <= i <= s.len(),
    ensures
        entries_encoding(s) == entries_encoding(s.take(i)) + entries_encoding(s.skip(i)),
    decreases i,
{
    if i == 0 {
        assert(s.take(0) =~= Seq::<(u8, ValueModel)>::empty());
        assert(s.skip(0) =~= s);
        assert(entries_encoding(s) =~= entries_encoding(s.take(0)) + entries_encoding(
            s.skip(0),
        ));
    } else {
        lemma_entries_encoding_split(s.drop_first(), i - 1);
        assert(s.take(i).drop_first() =~= s.drop_first().take(i - 1));
        assert(s.skip(i) =~= s.drop_first().skip(i - 1));
        assert(s.take(i).len() == i);
        assert(s.take(i)[0] == s[0]);
        assert(entries_encoding(s.take(i)) == seq![s[0].0] + value_encoding(s[0].1)
            + entries_encoding(s.drop_first().take(i - 1)));
        assert(entries_encoding(s) =~= entries_encoding(s.take(i)) + entries_encoding(
            s.skip(i),
        ));
    }
}

/// Appends a parameter table.
pub fn write_parameter_table(stream: &mut StreamBuffer, parameters: ParameterDictionary)
    requires
        old(stream).wf(),
        old(stream).spec_position() == old(stream).content().len(),
        parameters.wf(),
        table_encodable(parameters.model()),
        old(stream).content().len() + table_encoding(parameters.model()).len() + 8
            <= usize::MAX,
    ensures
        final(stream).wf(),
        final(stream).spec_position() == final(stream).content().len(),
        final(stream).content() == old(stream).content() + table_encoding(parameters.model()),
{
    let ghost model = parameters.model();
    let ghost content0 = old(stream).content();
    let parameters_length = parameters.count();
    proof {
        assert(model.len() == parameters.entries().len());
    }
    if parameters_length == 0 {
        write_byte(stream, 0, false);
        proof {
            assert(table_encoding(model) =~= seq![0u8]);
        }
        return ;
    }

    write_byte(stream, parameters_length as u8, false);
    proof {
        assert(model.take(0) =~= Seq::<(u8, ValueModel)>::empty());
        assert(stream.content() =~= content0 + seq![model.len() as u8] + entries_encoding(
            model.take(0),
        ));
    }
    let mut i: usize = 0;
    while i < parameters_length
        invariant
            i <= parameters_length,
            parameters_length == parameters.entries().len(),
            model == parameters.model(),
            parameters.wf(),
            table_encodable(model),
            stream.wf(),
            stream.spec_position() == stream.content().len(),
            content0.len() + table_encoding(model).len() + 8 <= usize::MAX,
            stream.content() == content0 + seq![model.len() as u8] + entries_encoding(
                model.take(i as int),
            ),
        decreases parameters_length - i,
    {
        let entry = parameters.entry_at(i);
        let key = entry.0;
        proof {
            lemma_entries_encoding_split(model, i as int);
            lemma_entries_encoding_split(model, i + 1);
            assert(model.take(i + 1) =~= model.take(i as int).push(model[i as int]));
            lemma_entries_encoding_snoc(model.take(i as int), model[i as int]);
            assert(model[i as int] == (key, entry.1@));
        }
        stream.write_byte(key);
        proof {
            assert(stream.content() =~= content0 + seq![model.len() as u8]
                + entries_encoding(model.take(i as int)) + seq![key]);
        }
        write(stream, &entry.1, true);
        proof {
            assert(stream.content() =~= content0 + seq![model.len() as u8]
                + entries_encoding(model.take(i + 1)));
        }
        i = i + 1;
    }
    proof {
        assert(model.take(parameters_length as int) =~= model);
        assert(final(stream).content() =~= content0 + table_encoding(model));
    }
}

/// Appends an operation request: its tag where asked, the opcode, and the
/// parameter table.
pub fn serialize_operation_request(
    stream: &mut StreamBuffer,
    opcode: u8,
    parameters: ParameterDictionary,
    set_type: bool,
)
    requires
        old(stream).wf(),
        old(stream).spec_position() == old(stream).content().len(),
        parameters.wf(),
        table_encodable(parameters.model()),
        old(stream).content().len() + table_encoding(parameters.model()).len() + 10
            <= usize::MAX,
    ensures
        final(stream).wf(),
        final(stream).spec_position() == final(stream).content().len(),
        final(stream).content() == old(stream).content() + request_encoding(
            opcode,
            parameters.model(),
            set_type,
        ),
{
    if set_type {
        stream.write_gp_type(crate::gp_type::GpType::OperationRequest);
    }

    stream.write_byte(opcode);
    write_parameter_table(stream, parameters);
    proof {
        assert(final(stream).content() =~= old(stream).content() + request_encoding(
            opcode,
            parameters.model(),
            set_type,
        ));
    }
}

/// A run of text readers consumes no more bytes than there are.
proof fn lemma_parse_string_items_len(bytes: Seq<u8>, n: nat)
    ensures
        parse_string_items(bytes, n) matches Ok(p) ==> 0 <= p.1 <= bytes.len(),
    decreases n,
{
    if n > 0 {
        lemma_parse_text_len(bytes);
        match parse_text(bytes) {
            Err(_) => {},
            Ok((text, k)) => {
                lemma_parse_string_items_len(bytes.skip(k), (n - 1) as nat);
            },
        }
    }
}

/// A value reader consumes no more bytes than there are.
pub proof fn lemma_parse_value_len(t: u8, bytes: Seq<u8>)
    ensures
        parse_value(t, bytes) matches Ok(p) ==> 0 <= p.1 <= bytes.len(),
{
    lemma_parse_varint_len(bytes);
    lemma_parse_text_len(bytes);
    if t == 71 {
        match parse_varint(bytes) {
            None => {},
            Some((n, k)) => {
                lemma_parse_string_items_len(bytes.skip(k), n as nat);
            },
        }
    }
}

/// Reads one value whose type tag has already been consumed.
pub fn read(stream: &mut StreamBuffer, gp_type: u8) -> (r: Result<Value, DecodeError>)
    requires
        old(stream).wf(),
    ensures
        final(stream).wf(),
        final(stream).content() == old(stream).content(),
        ({
            let rem = old(stream).content().skip(old(stream).spec_position() as int);
            match parse_value(gp_type, rem) {
                Ok(p) => r matches Ok(v) && v@ == p.0
                    && final(stream).spec_position() == old(stream).spec_position() + p.1,
                Err(e) => r == Err::<Value, DecodeError>(e),
            }
        }),
{
    if gp_type >= 128 && gp_type <= 228 {
        return Err(DecodeError::UnsupportedType);
    }
    let ghost rem = old(stream).content().skip(old(stream).spec_position() as int);

    if gp_type == 11 {
        match read_byte(stream) {
            Ok(b) => Ok(Value::Int(b as i32)),
            Err(e) => Err(e),
        }
    } else if gp_type == 12 {
        match read_byte(stream) {
            Ok(b) => Ok(Value::Int(-(b as i32))),
            Err(e) => Err(e),
        }
    } else if gp_type == 13 {
        let lo = match read_byte(stream) {
            Ok(b) => b,
            Err(e) => {
                return Err(e);
            },
        };
        let hi = match read_byte(stream) {
            Ok(b) => b,
            Err(e) => {
                return Err(e);
            },
        };
        Ok(Value::Int((lo as i32) + 256 * (hi as i32)))
    } else if gp_type == 14 {
        let lo = match read_byte(stream) {
            Ok(b) => b,
            Err(e) => {
                return Err(e);
            },
        };
        let hi = match read_byte(stream) {
            Ok(b) => b,
            Err(e) => {
                return Err(e);
            },
        };
        Ok(Value::Int(-((lo as i32) + 256 * (hi as i32))))
    } else if gp_type == 115 {
        match read_int16(stream) {
            Ok(v) => Ok(Value::Int(v as i32)),
            Err(e) => Err(e),
        }
    } else if gp_type == 98 {
        match read_byte(stream) {
            Ok(b) => Ok(Value::Byte(b)),
            Err(e) => Err(e),
        }
    } else if gp_type == 7 {
        match read_length_prefixed_text(stream) {
            Ok(s) => Ok(Value::String(s)),
            Err(e) => Err(e),
        }
    } else if gp_type == 42 {
        Ok(Value::Null)
    } else if gp_type == 9 {
        match read_compressed_int32(stream) {
            Ok(v) => Ok(Value::Int(v)),
            Err(e) => Err(e),
        }
    } else if gp_type == 30 {
        Ok(Value::Int(0))
    } else if gp_type == 71 {
        match read_string_array(stream) {
            Ok(v) => Ok(Value::StringArray(v)),
            Err(e) => Err(e),
        }
    } else if gp_type == 32 {
        Ok(Value::Byte(0))
    } else {
        Err(DecodeError::UnsupportedType)
    }
}

// ---------------------------------------------------------------------------
// Table and response readers
// ---------------------------------------------------------------------------
/// What a reader makes of `n` table entries at the head of `bytes`, having
/// already collected `acc`: the finished association list and the bytes
/// consumed.  A repeated key replaces the earlier binding in place.
pub open spec fn parse_table_entries(
    bytes: Seq<u8>,
    n: nat,
    acc: Seq<(u8, ValueModel)>,
) -> Result<(Seq<(u8, ValueModel)>, int), DecodeError>
    decreases n,
{
    if n == 0 {
        Ok((acc, 0))
    } else if bytes.len() < 2 {
        Err(DecodeError::ShortBuffer)
    } else {
        let key = bytes[0];
        let t = bytes[1];
        match parse_value(t, bytes.skip(2)) {
            Err(e) => Err(e),
            Ok((m, c)) => match parse_table_entries(
                bytes.skip(2 + c),
                (n - 1) as nat,
                crate::parameter_dictionary::assoc_set(acc, key, m),
            ) {
                Err(e) => Err(e),
                Ok((entries, rest)) => Ok((entries, 2 + c + rest)),
            },
        }
    }
}

/// What a reader makes of a parameter table at the head of `bytes`: a
/// one-byte entry count, then that many entries.
pub open spec fn parse_table(bytes: Seq<u8>) -> Result<
    (Seq<(u8, ValueModel)>, int),
    DecodeError,
> {
    if bytes.len() < 1 {
        Err(DecodeError::ShortBuffer)
    } else {
        match parse_table_entries(bytes.skip(1), bytes[0] as nat, seq![]) {
            Err(e) => Err(e),
            Ok((entries, c)) => Ok((entries, 1 + c)),
        }
    }
}

/// What a reader makes of an operation response at the head of `bytes`: the
/// opcode, a little-endian return code, a debug value that counts as text
/// only when it is one, and the parameter table.
pub open spec fn parse_operation_response(bytes: Seq<u8>) -> Result<
    (crate::operation_response::OperationResponseModel, int),
    DecodeError,
> {
    if bytes.len() < 4 {
        Err(DecodeError::ShortBuffer)
    } else {
        let opcode = bytes[0];
        let rc = i16_of_le(bytes[1], bytes[2]);
        let t = bytes[3];
        match parse_value(t, bytes.skip(4)) {
            Err(e) => Err(e),
            Ok((m, c)) => {
                let debug = match m {
                    ValueModel::Str(s) => Some(s),
                    _ => None,
                };
                match parse_table(bytes.skip(4 + c)) {
                    Err(e) => Err(e),
                    Ok((payload, c2)) => Ok(
                        (
                            crate::operation_response::OperationResponseModel {
                                operation_code: opcode,
                                return_code: rc,
                                debug_message: debug,
                                payload: payload,
                            },
                            4 + c + c2,
                        ),
                    ),
                }
            },
        }
    }
}

/// Reads one table entry into the dictionary.
fn read_table_entry(stream: &mut StreamBuffer, parameters: &mut ParameterDictionary) -> (r:
    Result<(), DecodeError>)
    requires
        old(stream).wf(),
        old(parameters).wf(),
        old(parameters).entries().len() < 255,
    ensures
        final(stream).wf(),
        final(stream).content() == old(stream).content(),
        final(parameters).wf(),
        final(parameters).entries().len() <= old(parameters).entries().len() + 1,
        ({
            let here = old(stream).content().skip(old(stream).spec_position() as int);
            if here.len() < 2 {
                r == Err::<(), DecodeError>(DecodeError::ShortBuffer)
            } else {
                match parse_value(here[1], here.skip(2)) {
                    Err(e) => r == Err::<(), DecodeError>(e),
                    Ok((m, c)) => r matches Ok(u) && final(parameters).model()
                        == crate::parameter_dictionary::assoc_set(
                        old(parameters).model(),
                        here[0],
                        m,
                    ) && final(stream).spec_position() == old(stream).spec_position() + 2 + c,
                }
            }
        }),
{
    let ghost here = old(stream).content().skip(old(stream).spec_position() as int);
    let code = match read_byte(stream) {
        Ok(b) => b,
        Err(e) => {
            return Err(e);
        },
    };
    let gp_type = match read_byte(stream) {
        Ok(b) => b,
        Err(e) => {
            return Err(e);
        },
    };
    proof {
        assert(here[0] == code);
        assert(here[1] == gp_type);
        assert(old(stream).content().skip(stream.spec_position() as int) =~= here.skip(2));
    }
    let value = match read(stream, gp_type) {
        Ok(v) => v,
        Err(e) => {
            return Err(e);
        },
    };
    let ghost vm = parse_value(gp_type, here.skip(2)).unwrap().0;
    let ghost pre_entries = parameters.entries();
    let ghost pre_model = parameters.model();
    parameters.set(code, value);
    proof {
        crate::parameter_dictionary::lemma_models_of_keys(pre_entries, code);
        if seq_get(pre_model, code) is Some {
            assert(parameters.model() =~= crate::parameter_dictionary::assoc_set(
                pre_model,
                code,
                vm,
            ));
        } else {
            assert(parameters.model() =~= crate::parameter_dictionary::assoc_set(
                pre_model,
                code,
                vm,
            ));
        }
    }
    Ok(())
}

/// Reads a parameter table.
pub fn read_parameter_dictionary(stream: &mut StreamBuffer) -> (r: Result<
    ParameterDictionary,
    DecodeError,
>)
    requires
        old(stream).wf(),
    ensures
        final(stream).wf(),
        final(stream).content() == old(stream).content(),
        ({
            let rem = old(stream).content().skip(old(stream).spec_position() as int);
            match parse_table(rem) {
                Ok(p) => r matches Ok(d) && d.wf() && d.model() == p.0
                    && final(stream).spec_position() == old(stream).spec_position() + p.1,
                Err(e) => r == Err::<ParameterDictionary, DecodeError>(e),
            }
        }),
{
    let ghost rem = old(stream).content().skip(old(stream).spec_position() as int);
    let capacity8 = match read_byte(stream) {
        Ok(b) => b,
        Err(e) => {
            return Err(e);
        },
    };
    let ghost content0 = stream.content();
    let ghost pos1 = stream.spec_position();
    let ghost rem1 = content0.skip(pos1 as int);
    proof {
        assert(rem1 =~= rem.skip(1));
        assert(rem[0] == capacity8);
    }

    let capacity = capacity8 as usize;
    let mut parameters = ParameterDictionary::with_capacity(capacity);
    proof {
        assert(parameters.model() =~= Seq::<(u8, ValueModel)>::empty());
    }

    let mut i: usize = 0;
    while i < capacity
        invariant
            i <= capacity,
            capacity == capacity8,
            stream.wf(),
            stream.content() == content0,
            content0 == old(stream).content(),
            rem == old(stream).content().skip(old(stream).spec_position() as int),
            rem.len() >= 1,
            rem[0] == capacity8,
            rem1 == rem.skip(1),
            rem1 == content0.skip(pos1 as int),
            pos1 == old(stream).spec_position() + 1,
            pos1 <= stream.spec_position(),
            parameters.wf(),
            parameters.entries().len() <= i,
            ({
                let here = content0.skip(stream.spec_position() as int);
                match parse_table_entries(here, (capacity - i) as nat, parameters.model()) {
                    Ok(p) => parse_table_entries(rem1, capacity8 as nat, Seq::empty()) matches
                        Ok(q) && q.0 == p.0 && q.1 == stream.spec_position() - pos1 + p.1,
                    Err(e) => parse_table_entries(rem1, capacity8 as nat, Seq::empty()) == Err::<
                        (Seq<(u8, ValueModel)>, int),
                        DecodeError,
                    >(e),
                }
            }),
        decreases capacity - i,
    {
        let ghost here = content0.skip(stream.spec_position() as int);
        let ghost pre_model = parameters.model();
        match read_table_entry(stream, &mut parameters) {
            Ok(u) => {},
            Err(e) => {
                return Err(e);
            },
        }
        i = i + 1;
        proof {
            let c = parse_value(here[1], here.skip(2)).unwrap().1;
            lemma_parse_value_len(here[1], here.skip(2));
            assert(content0.skip(stream.spec_position() as int) =~= here.skip(2 + c));
        }
    }
    proof {
        let here = content0.skip(stream.spec_position() as int);
        assert(parse_table_entries(here, 0, parameters.model()) == Ok::<
            (Seq<(u8, ValueModel)>, int),
            DecodeError,
        >((parameters.model(), 0)));
    }
    Ok(parameters)
}

/// Reads a whole operation response.
pub fn deserialize_operation_response(stream: &mut StreamBuffer) -> (r: Result<
    crate::operation_response::OperationResponse,
    DecodeError,
>)
    requires
        old(stream).wf(),
    ensures
        final(stream).wf(),
        final(stream).content() == old(stream).content(),
        ({
            let rem = old(stream).content().skip(old(stream).spec_position() as int);
            match parse_operation_response(rem) {
                Ok(p) => r matches Ok(resp) && resp@ == p.0 && resp.payload.wf()
                    && final(stream).spec_position() == old(stream).spec_position() + p.1,
                Err(e) => r == Err::<crate::operation_response::OperationResponse, DecodeError>(
                    e,
                ),
            }
        }),
{
    let ghost rem = old(stream).content().skip(old(stream).spec_position() as int);
    let operation_code = match read_byte(stream) {
        Ok(b) => b,
        Err(e) => {
            return Err(e);
        },
    };
    let return_code = match read_int16(stream) {
        Ok(v) => v,
        Err(e) => {
            return Err(e);
        },
    };
    let debug_message_type = match read_byte(stream) {
        Ok(b) => b,
        Err(e) => {
            return Err(e);
        },
    };
    proof {
        assert(rem[0] == operation_code);
        assert(old(stream).content().skip(old(stream).spec_position() as int + 4) =~= rem.skip(4));
    }
    let debug_value = match read(stream, debug_message_type) {
        Ok(v) => v,
        Err(e) => {
            return Err(e);
        },
    };
    let ghost c = parse_value(debug_message_type, rem.skip(4)).unwrap().1;
    proof {
        lemma_parse_value_len(debug_message_type, rem.skip(4));
        assert(old(stream).content().skip(stream.spec_position() as int) =~= rem.skip(4 + c));
    }
    let debug_message = match debug_value {
        Value::String(value) => Some(value),
        _ => None,
    };

    let payload = match read_parameter_dictionary(stream) {
        Ok(d) => d,
        Err(e) => {
            return Err(e);
        },
    };

    Ok(
        crate::operation_response::OperationResponse {
            operation_code,
            return_code,
            debug_message,
            payload,
        },
    )
}

// ---------------------------------------------------------------------------
// Round trips
// ---------------------------------------------------------------------------
proof fn lemma_varint_round_trip_from(v: nat, rest: Seq<u8>, depth: nat)
    requires
        depth <= 4,
        depth + varint_bytes(v).len() <= 5,
    ensures
        parse_varint_from(varint_bytes(v) + rest, depth) == Some(
            (v, varint_bytes(v).len() as int),
        ),
    decreases v,
{
    let bytes = varint_bytes(v) + rest;
    if v < 128 {
        assert(bytes[0] == v as u8);
    } else {
        assert(bytes[0] == (128 + v % 128) as u8);
        assert(bytes[0] >= 128);
        lemma_varint_len_pos(v / 128);
        assert(bytes.skip(1) =~= varint_bytes(v / 128) + rest);
        lemma_varint_round_trip_from(v / 128, rest, (depth + 1) as nat);
        assert((bytes[0] - 128) as nat + 128 * (v / 128) == v);
    }
}

/// A varint decodes to the value it was written from, whatever follows it:
/// the writer and the reader of the base-128 encoding are inverse.
pub proof fn lemma_varint_round_trip(v: nat, rest: Seq<u8>)
    requires
        v < 0x1_0000_0000,
    ensures
        parse_varint(varint_bytes(v) + rest) == Some(
            ((v as u32), varint_bytes(v).len() as int),
        ),
{
    lemma_varint_len(v);
    lemma_varint_round_trip_from(v, rest, 0);
}

/// A zig-zag varint decodes to the signed value it was written from.
proof fn lemma_compressed_int_round_trip(v: i32, rest: Seq<u8>)
    ensures
        ({
            let enc = varint_bytes(zigzag_encode(v as int));
            parse_varint(enc + rest) matches Some(p) && zigzag_decode(p.0 as nat) == v as int
                && p.1 == enc.len()
        }),
{
    let zz = zigzag_encode(v as int);
    assert(zz < 0x1_0000_0000);
    lemma_varint_round_trip(zz, rest);
    lemma_zigzag_round_trip(v as int);
}

/// A tagged value decodes to the value it was encoded from, whatever
/// follows it.
proof fn lemma_value_round_trip(m: ValueModel, rest: Seq<u8>)
    requires
        encodable(m),
    ensures
        ({
            let enc = value_encoding(m);
            enc.len() >= 1 && parse_value(enc[0], enc.skip(1) + rest) == Ok::<
                (ValueModel, int),
                DecodeError,
            >((m, enc.len() - 1))
        }),
{
    match m {
        ValueModel::Int(v) => {
            let enc = int_encoding(v);
            let body = enc.skip(1) + rest;
            if v == 0 {
                assert(enc.skip(1) =~= Seq::<u8>::empty());
            } else if 0 < v <= 255 {
                assert(enc.skip(1) =~= seq![v as u8]);
                assert(body[0] == v as u8);
            } else if 255 < v <= 65535 {
                assert(enc.skip(1) =~= ushort_bytes(v as u16));
                assert(body[0] == (v as u16) % 256 && body[1] == ((v as u16) / 256) % 256);
                assert(body[0] + 256 * body[1] == v);
            } else if -255 <= v < 0 {
                assert(enc.skip(1) =~= seq![(0 - v) as u8]);
                assert(body[0] == (0 - v) as u8);
            } else if -65535 <= v < -255 {
                assert(enc.skip(1) =~= ushort_bytes((0 - v) as u16));
                assert(body[0] + 256 * body[1] == 0 - v);
            } else {
                assert(enc.skip(1) =~= varint_bytes(zigzag_encode(v as int)));
                lemma_compressed_int_round_trip(v, rest);
                assert(enc[0] == 9);
                assert(!(128 <= enc[0] <= 228));
            }
        },
        ValueModel::Str(s) => {
            let enc = value_encoding(m);
            let payload = string_payload(s);
            let utf8 = vstd::utf8::encode_utf8(s);
            assert(enc.skip(1) =~= payload);
            lemma_varint_round_trip(utf8.len(), utf8 + rest);
            assert(payload + rest =~= varint_bytes(utf8.len()) + (utf8 + rest));
            let k = varint_bytes(utf8.len()).len() as int;
            assert((payload + rest).skip(k) =~= utf8 + rest);
            assert((payload + rest).skip(k).take(utf8.len() as int) =~= utf8);
            vstd::utf8::encode_utf8_valid_utf8(s);
            vstd::utf8::encode_utf8_decode_utf8(s);
            assert((utf8.len() as u32) == utf8.len());
        },
        _ => {},
    }
}

/// A run of fresh-keyed entries decodes onto the collected list by plain
/// appending.
proof fn lemma_entries_round_trip(s: Seq<(u8, ValueModel)>, acc: Seq<(u8, ValueModel)>, rest: Seq<u8>)
    requires
        unique_keys(s),
        forall|i: int| 0 <= i < s.len() ==> encodable(#[trigger] s[i].1),
        forall|i: int|
            0 <= i < s.len() ==> seq_get(acc, #[trigger] s[i].0) is None,
    ensures
        parse_table_entries(entries_encoding(s) + rest, s.len(), acc) == Ok::<
            (Seq<(u8, ValueModel)>, int),
            DecodeError,
        >((acc + s, entries_encoding(s).len() as int)),
    decreases s.len(),
{
    if s.len() == 0 {
        assert(entries_encoding(s) =~= Seq::<u8>::empty());
        assert(acc + s =~= acc);
    } else {
        let e = s[0];
        let venc = value_encoding(e.1);
        let tail_enc = entries_encoding(s.drop_first());
        let bytes = entries_encoding(s) + rest;
        assert(encodable(e.1));
        lemma_value_round_trip(e.1, tail_enc + rest);
        assert(venc.len() >= 1);
        assert(bytes.len() >= 2);
        assert(bytes[0] == e.0);
        assert(bytes[1] == venc[0]);
        assert(bytes.skip(2) =~= venc.skip(1) + (tail_enc + rest));
        assert(parse_value(bytes[1], bytes.skip(2)) == Ok::<(ValueModel, int), DecodeError>(
            (e.1, venc.len() - 1),
        ));
        assert(seq_get(acc, e.0) is None);
        assert(crate::parameter_dictionary::assoc_set(acc, e.0, e.1) == acc.push(e));
        assert(bytes.skip(2 + (venc.len() - 1)) =~= tail_enc + rest);
        assert forall|i: int| 0 <= i < s.drop_first().len() implies seq_get(
            acc.push(e),
            #[trigger] s.drop_first()[i].0,
        ) is None by {
            assert(s.drop_first()[i] == s[i + 1]);
            assert(s[i + 1].0 != e.0);
            crate::parameter_dictionary::lemma_seq_get_push(acc, e.0, e.1);
        }
        lemma_entries_round_trip(s.drop_first(), acc.push(e), rest);
        assert(acc.push(e) + s.drop_first() =~= acc + s);
        assert(entries_encoding(s).len() == 1 + venc.len() + tail_enc.len());
    }
}

/// The codec round trip: a table of encodable values with unique keys
/// decodes, from its own encoding followed by anything, to exactly the
/// entries it was encoded from.  `write_parameter_table` appends
/// `table_encoding` of a dictionary's model and `read_parameter_dictionary`
/// returns a dictionary whose model is what `parse_table` yields, so
/// decoding an encoded dictionary gives the dictionary back.
pub proof fn lemma_codec_round_trip(m: Seq<(u8, ValueModel)>, rest: Seq<u8>)
    requires
        unique_keys(m),
        m.len() <= 255,
        forall|i: int| 0 <= i < m.len() ==> encodable(#[trigger] m[i].1),
    ensures
        parse_table(table_encoding(m) + rest) == Ok::<(Seq<(u8, ValueModel)>, int), DecodeError>(
            (m, table_encoding(m).len() as int),
        ),
{
    let bytes = table_encoding(m) + rest;
    assert(bytes[0] == m.len() as u8);
    assert(bytes.skip(1) =~= entries_encoding(m) + rest);
    assert forall|i: int| 0 <= i < m.len() implies seq_get(
        Seq::<(u8, ValueModel)>::empty(),
        #[trigger] m[i].0,
    ) is None by {
        assert(seq_get(Seq::<(u8, ValueModel)>::empty(), m[i].0) is None);
    }
    lemma_entries_round_trip(m, Seq::<(u8, ValueModel)>::empty(), rest);
    assert(Seq::<(u8, ValueModel)>::empty() + m =~= m);
}

} // verus!
