//! Key codecs: how external keys become bytes.

use vstd::prelude::*;
use vstd::string::StringSliceAdditionalSpecFns;

use crate::le;

verus! {

/// The longest key that a codec accepts, in bytes.
pub const MAX_KEY_BYTES: usize = 16_777_216;

/// Stable identifier for a key codec in persisted metadata.
#[derive(Debug, Clone, Copy, PartialEq, Eq, Structural)]
pub enum CodecId {
    /// Arbitrary bytes.
    Bytes,
    /// UTF-8 strings.
    Utf8,
    /// Little-endian unsigned 64-bit integers.
    U64,
    /// Little-endian signed 64-bit integers.
    I64,
    /// JSON values encoded as UTF-8 JSON text.
    Json,
}

impl CodecId {
    /// The number that stands for the codec in a file.
    pub open spec fn raw(self) -> u16 {
        match self {
            CodecId::Bytes => 1,
            CodecId::Utf8 => 2,
            CodecId::U64 => 3,
            CodecId::I64 => 4,
            CodecId::Json => 5,
        }
    }

    /// The codec with this number, if there is one.
    pub open spec fn of_raw(value: u16) -> Option<CodecId> {
        match value {
            1 => Some(CodecId::Bytes),
            2 => Some(CodecId::Utf8),
            3 => Some(CodecId::U64),
            4 => Some(CodecId::I64),
            5 => Some(CodecId::Json),
            _ => None,
        }
    }

    /// The codec with this number, if there is one.
    pub fn from_raw(value: u16) -> (id: Option<CodecId>)
        ensures
            id == CodecId::of_raw(value),
    {
        match value {
            1 => Some(CodecId::Bytes),
            2 => Some(CodecId::Utf8),
            3 => Some(CodecId::U64),
            4 => Some(CodecId::I64),
            5 => Some(CodecId::Json),
            _ => None,
        }
    }

    /// The number that stands for the codec in a file.
    pub fn as_raw(self) -> (value: u16)
        ensures
            value == self.raw(),
    {
        match self {
            CodecId::Bytes => 1,
            CodecId::Utf8 => 2,
            CodecId::U64 => 3,
            CodecId::I64 => 4,
            CodecId::Json => 5,
        }
    }
}

/// Errors produced by key codecs.
#[derive(Debug, Clone, PartialEq, Eq)]
pub enum CodecError {
    /// The key exceeds the size accepted by the codecs.
    PayloadTooLarge { actual: usize, max: usize },
    /// A fixed-width codec received the wrong number of bytes.
    InvalidLength { expected: usize, actual: usize },
    /// String bytes are not valid UTF-8.
    InvalidUtf8,
    /// JSON encoding or decoding failed.
    InvalidJson { message: String },
}

/// Encode and decode one key type.
pub trait KeyCodec<T> {
    /// The stable persisted codec identifier.
    fn id(&self) -> CodecId;

    /// Encode a key to a bounded byte representation.
    fn encode(&self, value: &T) -> Result<Vec<u8>, CodecError>;

    /// Decode a key from its byte representation.
    fn decode(&self, bytes: &[u8]) -> Result<T, CodecError>;
}

/// The error for a key of `length` bytes, if it is too long.
pub open spec fn size_error(length: nat) -> Option<CodecError> {
    if length > MAX_KEY_BYTES {
        Some(CodecError::PayloadTooLarge { actual: length as usize, max: MAX_KEY_BYTES })
    } else {
        None
    }
}

/// The error of the eight-byte codecs for a key of `length` bytes, if any.
pub open spec fn width_error(length: nat) -> Option<CodecError> {
    if length != 8 {
        Some(CodecError::InvalidLength { expected: 8, actual: length as usize })
    } else {
        None
    }
}

fn check_payload_size(length: usize) -> (result: Result<(), CodecError>)
    ensures
        match size_error(length as nat) {
            Some(error) => result == Err::<(), CodecError>(error),
            None => result is Ok,
        },
{
    if length > MAX_KEY_BYTES {
        return Err(CodecError::PayloadTooLarge { actual: length, max: MAX_KEY_BYTES });
    }
    Ok(())
}

/// Codec for arbitrary byte-vector keys.
#[derive(Debug, Default, Clone, Copy)]
pub struct BytesCodec;

impl KeyCodec<Vec<u8>> for BytesCodec {
    fn id(&self) -> (id: CodecId)
        ensures
            id == CodecId::Bytes,
    {
        CodecId::Bytes
    }

    fn encode(&self, value: &Vec<u8>) -> (result: Result<Vec<u8>, CodecError>)
        ensures
            match size_error(value@.len()) {
                Some(error) => result == Err::<Vec<u8>, CodecError>(error),
                None => result matches Ok(bytes) && bytes@ == value@,
            },
    {
        check_payload_size(value.len())?;
        Ok(vstd::slice::slice_to_vec(value.as_slice()))
    }

    fn decode(&self, bytes: &[u8]) -> (result: Result<Vec<u8>, CodecError>)
        ensures
            match size_error(bytes@.len()) {
                Some(error) => result == Err::<Vec<u8>, CodecError>(error),
                None => result matches Ok(value) && value@ == bytes@,
            },
    {
        check_payload_size(bytes.len())?;
        Ok(vstd::slice::slice_to_vec(bytes))
    }
}

/// Calls `String::from_utf8`. The contract says that it accepts exactly the
/// byte strings that are valid UTF-8 and gives back the text they encode.
#[verifier::external_body]
fn text_of(bytes: &[u8]) -> (text: Option<String>)
    ensures
        match text {
            Some(text) => vstd::utf8::valid_utf8(bytes@) && text@ == vstd::utf8::decode_utf8(
                bytes@,
            ),
            None => !vstd::utf8::valid_utf8(bytes@),
        },
{
    String::from_utf8(bytes.to_vec()).ok()
}

/// Codec for owned UTF-8 string keys.
#[derive(Debug, Default, Clone, Copy)]
pub struct Utf8Codec;

impl KeyCodec<String> for Utf8Codec {
    fn id(&self) -> (id: CodecId)
        ensures
            id == CodecId::Utf8,
    {
        CodecId::Utf8
    }

    fn encode(&self, value: &String) -> (result: Result<Vec<u8>, CodecError>)
        ensures
            match size_error(vstd::utf8::encode_utf8(value@).len()) {
                Some(error) => result == Err::<Vec<u8>, CodecError>(error),
                None => result matches Ok(bytes) && bytes@ == vstd::utf8::encode_utf8(value@),
            },
    {
        let bytes = value.as_str().as_bytes();
        check_payload_size(bytes.len())?;
        Ok(vstd::slice::slice_to_vec(bytes))
    }

    fn decode(&self, bytes: &[u8]) -> (result: Result<String, CodecError>)
        ensures
            match size_error(bytes@.len()) {
                Some(error) => result == Err::<String, CodecError>(error),
                None => if vstd::utf8::valid_utf8(bytes@) {
                    result matches Ok(value) && value@ == vstd::utf8::decode_utf8(bytes@)
                } else {
                    result == Err::<String, CodecError>(CodecError::InvalidUtf8)
                },
            },
    {
        check_payload_size(bytes.len())?;
        match text_of(bytes) {
            Some(text) => Ok(text),
            None => Err(CodecError::InvalidUtf8),
        }
    }
}

/// Codec for unsigned 64-bit integer keys.
#[derive(Debug, Default, Clone, Copy)]
pub struct U64Codec;

impl KeyCodec<u64> for U64Codec {
    fn id(&self) -> (id: CodecId)
        ensures
            id == CodecId::U64,
    {
        CodecId::U64
    }

    fn encode(&self, value: &u64) -> (result: Result<Vec<u8>, CodecError>)
        ensures
            result matches Ok(bytes) && bytes@ == le::bytes(*value as nat, 8),
    {
        let mut bytes: Vec<u8> = Vec::new();
        le::push_u64(&mut bytes, *value);
        assert(bytes@ =~= le::bytes(*value as nat, 8));
        Ok(bytes)
    }

    fn decode(&self, bytes: &[u8]) -> (result: Result<u64, CodecError>)
        ensures
            match width_error(bytes@.len()) {
                Some(error) => result == Err::<u64, CodecError>(error),
                None => result matches Ok(value) && value as nat == le::value(bytes@),
            },
    {
        if bytes.len() != 8 {
            return Err(CodecError::InvalidLength { expected: 8, actual: bytes.len() });
        }
        assert(bytes@.subrange(0, 8) =~= bytes@);
        Ok(le::read_u64(bytes, 0))
    }
}

/// The two's complement of `value` in 64 bits, read as an unsigned number.
pub open spec fn twos_complement(value: i64) -> nat {
    if value >= 0 {
        value as nat
    } else {
        (value + 0x1_0000_0000_0000_0000) as nat
    }
}

/// Codec for signed 64-bit integer keys.
#[derive(Debug, Default, Clone, Copy)]
pub struct I64Codec;

impl KeyCodec<i64> for I64Codec {
    fn id(&self) -> (id: CodecId)
        ensures
            id == CodecId::I64,
    {
        CodecId::I64
    }

    fn encode(&self, value: &i64) -> (result: Result<Vec<u8>, CodecError>)
        ensures
            result matches Ok(bytes) && bytes@ == le::bytes(twos_complement(*value), 8),
    {
        let raw: u64 = if *value >= 0 {
            *value as u64
        } else {
            u64::MAX - (-(*value + 1)) as u64
        };
        let mut bytes: Vec<u8> = Vec::new();
        le::push_u64(&mut bytes, raw);
        assert(bytes@ =~= le::bytes(raw as nat, 8));
        Ok(bytes)
    }

    fn decode(&self, bytes: &[u8]) -> (result: Result<i64, CodecError>)
        ensures
            match width_error(bytes@.len()) {
                Some(error) => result == Err::<i64, CodecError>(error),
                None => result matches Ok(value) && twos_complement(value) == le::value(bytes@),
            },
    {
        if bytes.len() != 8 {
            return Err(CodecError::InvalidLength { expected: 8, actual: bytes.len() });
        }
        assert(bytes@.subrange(0, 8) =~= bytes@);
        let raw: u64 = le::read_u64(bytes, 0);
        let value: i64 = if raw <= i64::MAX as u64 {
            raw as i64
        } else {
            -((u64::MAX - raw) as i64) - 1
        };
        Ok(value)
    }
}

/// A JSON value.
#[verifier::external_type_specification]
#[verifier::external_body]
pub struct ExJsonValue(serde_json::Value);

/// A JSON error.
#[verifier::external_type_specification]
#[verifier::external_body]
pub struct ExJsonError(serde_json::Error);

/// The JSON text of a value, as `serde_json::to_vec` writes it.
pub uninterp spec fn json_text(value: serde_json::Value) -> Seq<u8>;

/// The value that a JSON text denotes, as `serde_json::from_slice` reads it;
/// `None` where it reports an error.
pub uninterp spec fn json_value(text: Seq<u8>) -> Option<serde_json::Value>;

/// Calls `serde_json::to_vec`. The contract names the text and says that a value
/// is always written: writing fails on map keys that are no strings and on types
/// that refuse to be written, and a value has neither.
#[verifier::external_body]
fn json_to_vec(value: &serde_json::Value) -> (result: Result<Vec<u8>, serde_json::Error>)
    ensures
        result is Ok && result->Ok_0@ == json_text(*value),
{
    serde_json::to_vec(value)
}

/// Calls `serde_json::from_slice`. The contract names the value, and says that
/// an error comes exactly where there is none.
#[verifier::external_body]
fn json_from_slice(bytes: &[u8]) -> (result: Result<serde_json::Value, serde_json::Error>)
    ensures
        match result {
            Ok(value) => json_value(bytes@) == Some(value),
            Err(_) => json_value(bytes@) is None,
        },
{
    serde_json::from_slice(bytes)
}

/// Codec for JSON values.
///
/// JSON holds data alone, so that decoding a key constructs no executable
/// object. Nothing is claimed of reading what was written: a double may be read
/// back as one of its neighbours.
#[derive(Debug, Default, Clone, Copy)]
pub struct JsonValueCodec;

impl JsonValueCodec {
    /// What `encode` answers when the writer has produced `written`.
    pub fn encoded(written: Result<Vec<u8>, String>) -> (result: Result<Vec<u8>, CodecError>)
        ensures
            match written {
                Ok(bytes) => match size_error(bytes@.len()) {
                    Some(error) => result == Err::<Vec<u8>, CodecError>(error),
                    None => result == Ok::<Vec<u8>, CodecError>(bytes),
                },
                Err(message) => result == Err::<Vec<u8>, CodecError>(
                    CodecError::InvalidJson { message },
                ),
            },
    {
        match written {
            Ok(bytes) => {
                check_payload_size(bytes.len())?;
                Ok(bytes)
            },
            Err(message) => Err(CodecError::InvalidJson { message }),
        }
    }
}

impl KeyCodec<serde_json::Value> for JsonValueCodec {
    fn id(&self) -> (id: CodecId)
        ensures
            id == CodecId::Json,
    {
        CodecId::Json
    }

    fn encode(&self, value: &serde_json::Value) -> (result: Result<Vec<u8>, CodecError>)
        ensures
            match size_error(json_text(*value).len()) {
                Some(error) => result == Err::<Vec<u8>, CodecError>(error),
                None => result matches Ok(bytes) && bytes@ == json_text(*value),
            },
    {
        let written = match json_to_vec(value) {
            Ok(bytes) => Ok(bytes),
            Err(error) => Err(error.to_string()),
        };
        JsonValueCodec::encoded(written)
    }

    fn decode(&self, bytes: &[u8]) -> (result: Result<serde_json::Value, CodecError>)
        ensures
            match size_error(bytes@.len()) {
                Some(error) => result == Err::<serde_json::Value, CodecError>(error),
                None => match json_value(bytes@) {
                    Some(value) => result == Ok::<serde_json::Value, CodecError>(value),
                    None => result matches Err(error) && error is InvalidJson,
                },
            },
    {
        check_payload_size(bytes.len())?;
        match json_from_slice(bytes) {
            Ok(value) => Ok(value),
            Err(error) => Err(CodecError::InvalidJson { message: error.to_string() }),
        }
    }
}

/// Decoding an encoded text gives the text back, and its bytes are always
/// valid UTF-8.
pub proof fn law_utf8_round_trip(text: Seq<char>)
    ensures
        vstd::utf8::valid_utf8(vstd::utf8::encode_utf8(text)),
        vstd::utf8::decode_utf8(vstd::utf8::encode_utf8(text)) == text,
{
    broadcast use vstd::utf8::encode_utf8_valid_utf8;
    broadcast use vstd::utf8::encode_utf8_decode_utf8;

}

/// Decoding an encoded integer gives the integer back, for both integer
/// codecs, and the encoding has eight bytes.
pub proof fn law_integer_round_trip(unsigned: u64, signed: i64)
    ensures
        width_error(le::bytes(unsigned as nat, 8).len()) is None,
        le::value(le::bytes(unsigned as nat, 8)) == unsigned as nat,
        width_error(le::bytes(twos_complement(signed), 8).len()) is None,
        le::value(le::bytes(twos_complement(signed), 8)) == twos_complement(signed),
        forall|other: i64| twos_complement(other) == twos_complement(signed) ==> other == signed,
{
    le::lemma_pow256_values();
    le::lemma_bytes_len(unsigned as nat, 8);
    le::lemma_bytes_len(twos_complement(signed), 8);
    le::lemma_value_of_bytes(unsigned as nat, 8);
    le::lemma_value_of_bytes(twos_complement(signed), 8);
}

/// The numbers that stand for the codecs.
pub proof fn law_numbers_of_codecs()
    ensures
        CodecId::Bytes.raw() == 1,
        CodecId::Utf8.raw() == 2,
        CodecId::U64.raw() == 3,
        CodecId::I64.raw() == 4,
        CodecId::Json.raw() == 5,
        forall|codec: CodecId| #[trigger] CodecId::of_raw(codec.raw()) == Some(codec),
        forall|value: u16| #[trigger]
            CodecId::of_raw(value) matches Some(codec) ==> codec.raw() == value,
{
}

/// A key of up to 16 MiB is taken, a longer one is not, and an integer has eight bytes.
pub proof fn law_which_keys_are_taken(length: nat)
    ensures
        size_error(length) is None == (length <= 16_777_216),
        width_error(length) is None == (length == 8),
{
}

/// The two's complement of a number is the number modulo `2^64`.
pub proof fn law_twos_complement(value: i64)
    ensures
        0 <= twos_complement(value) < 0x1_0000_0000_0000_0000,
        twos_complement(value) as int == value || twos_complement(value) as int == value
            + 0x1_0000_0000_0000_0000,
{
}

} // verus!
