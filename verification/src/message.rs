//! Messages on the wire: four bytes of length, most significant first, then the payload.
use crate::clipboard::{shareable, Contents, MAX_SIZE};
use crate::text::text_view;
use bincode::Options;
use vstd::prelude::*;
use vstd::utf8::*;

verus! {

/// Enough for the largest clipboard contents plus overhead.
pub const MAX_LENGTH: usize = MAX_SIZE + 4096;

/// What can go wrong in `bincode`.
#[verifier::external_type_specification]
#[verifier::external_body]
pub struct ExBincodeErrorKind(bincode::ErrorKind);

/// Why a message was not written or not read.
#[derive(Debug)]
pub enum MessageError {
    /// A message announces more bytes than any message may have.
    TooLarge,
    /// The stream ended before the announced number of bytes.
    TooShort,
    /// The payload has more bytes than any message may have.
    Oversized,
    /// The value could not be turned into a payload.
    Unencodable(Box<bincode::ErrorKind>),
    /// The payload does not stand for a value.
    Malformed(Box<bincode::ErrorKind>),
}

/// What kind of fault a [`MessageError`] is.
#[derive(Clone, Copy, Debug, PartialEq, Eq, Structural)]
pub enum Fault {
    InvalidData,
    InvalidInput,
    UnexpectedEof,
}

impl MessageError {
    /// The kind of fault: of what was read, of what was to be written, or of a stream that ended.
    pub fn fault(&self) -> (r: Fault)
        ensures
            r == match *self {
                MessageError::TooLarge | MessageError::Malformed(_) => Fault::InvalidData,
                MessageError::TooShort => Fault::UnexpectedEof,
                MessageError::Oversized | MessageError::Unencodable(_) => Fault::InvalidInput,
            },
    {
        match self {
            MessageError::TooLarge | MessageError::Malformed(_) => Fault::InvalidData,
            MessageError::TooShort => Fault::UnexpectedEof,
            MessageError::Oversized | MessageError::Unencodable(_) => Fault::InvalidInput,
        }
    }

    /// The text shown for the error, unless the text is that of the error it holds.
    pub fn message(&self) -> (r: Option<&'static str>)
        ensures
            *self is TooLarge ==> r == Some("Message too large"),
            *self is TooShort ==> r == Some("Message shorter than advertised"),
            *self is Oversized ==> r == Some("Data too large"),
            *self is Unencodable || *self is Malformed ==> r is None,
    {
        match self {
            MessageError::TooLarge => Some("Message too large"),
            MessageError::TooShort => Some("Message shorter than advertised"),
            MessageError::Oversized => Some("Data too large"),
            MessageError::Unencodable(_) | MessageError::Malformed(_) => None,
        }
    }
}

/// The four bytes that announce a length, most significant first.
pub open spec fn header(length: int) -> Seq<u8> {
    seq![
        (length / 0x1000000) as u8,
        (length / 0x10000 % 0x100) as u8,
        (length / 0x100 % 0x100) as u8,
        (length % 0x100) as u8,
    ]
}

/// The length that four bytes announce.
pub open spec fn announced(bytes: Seq<u8>) -> int {
    bytes[0] * 0x1000000 + bytes[1] * 0x10000 + bytes[2] * 0x100 + bytes[3]
}

/// The least significant `count` bytes of `n`, the lowest first.
pub open spec fn le_bytes(n: nat, count: nat) -> Seq<u8>
    decreases count,
{
    if count == 0 {
        seq![]
    } else {
        seq![(n % 0x100) as u8] + le_bytes(n / 0x100, (count - 1) as nat)
    }
}

/// The number that bytes stand for, the lowest byte first.
pub open spec fn le_value(bytes: Seq<u8>) -> nat
    decreases bytes.len(),
{
    if bytes.len() == 0 {
        0
    } else {
        bytes[0] as nat + 0x100 * le_value(bytes.skip(1))
    }
}

/// How many bytes follow the first byte of a number: none when it is the number itself.
pub open spec fn extra_bytes(first: u8) -> Option<nat> {
    if first < 251 {
        Some(0nat)
    } else if first == 251 {
        Some(2nat)
    } else if first == 252 {
        Some(4nat)
    } else if first == 253 {
        Some(8nat)
    } else {
        None
    }
}

/// A number in one byte if it is below 251, else a byte that tells its width and then the
/// number in two, four or eight bytes, the lowest first.
pub open spec fn varint(n: nat) -> Seq<u8> {
    if n < 251 {
        seq![n as u8]
    } else if n < 0x10000 {
        seq![251u8] + le_bytes(n, 2)
    } else if n < 0x1_0000_0000 {
        seq![252u8] + le_bytes(n, 4)
    } else {
        seq![253u8] + le_bytes(n, 8)
    }
}

/// The payload that tells a client's name: a zero byte for none, else a one, the number of
/// bytes of the name and its UTF-8 bytes.
pub open spec fn name_payload(name: Option<Seq<char>>) -> Seq<u8> {
    match name {
        None => seq![0u8],
        Some(text) => seq![1u8] + varint(encode_utf8(text).len()) + encode_utf8(text),
    }
}

/// The number of bytes that a name's payload announces, from `bytes` that start behind the
/// leading one, and the bytes behind that number.
pub open spec fn counted(bytes: Seq<u8>) -> Option<(nat, Seq<u8>)> {
    if bytes.len() == 0 || extra_bytes(bytes[0]) is None || bytes.len() <= extra_bytes(
        bytes[0],
    )->0 {
        None
    } else if extra_bytes(bytes[0])->0 == 0 {
        Some((bytes[0] as nat, bytes.skip(1)))
    } else {
        let extra = extra_bytes(bytes[0])->0 as int;
        Some((le_value(bytes.subrange(1, 1 + extra)), bytes.skip(1 + extra)))
    }
}

/// The name that a payload tells, or nothing if it tells none: every byte of the payload counts,
/// and a name is valid UTF-8.
pub open spec fn payload_name(payload: Seq<u8>) -> Option<Option<Seq<char>>> {
    if payload == seq![0u8] {
        Some(None)
    } else if payload.len() > 0 && payload[0] == 1 {
        match counted(payload.skip(1)) {
            Some((size, rest)) => if rest.len() == size && valid_utf8(rest) {
                Some(Some(decode_utf8(rest)))
            } else {
                None
            },
            None => None,
        }
    } else {
        None
    }
}

/// `bincode::Options::serialize` on `bincode::DefaultOptions` with a limit: an option is a byte,
/// zero or one, and then what it holds; a string is its number of bytes as a variable-width
/// integer and then those bytes; and it fails only where that takes more than `limit` bytes.
#[verifier::external_body]
fn serialize_name(name: &Option<String>, limit: u64) -> (r: Result<
    Vec<u8>,
    Box<bincode::ErrorKind>,
>)
    ensures
        r is Ok <==> name_payload(text_view(*name)).len() <= limit,
        r matches Ok(bytes) ==> bytes@ == name_payload(text_view(*name)),
{
    bincode::DefaultOptions::new().with_limit(limit).serialize(name)
}

/// `bincode::Options::deserialize` on `bincode::DefaultOptions`, whatever the limit: the slice
/// is read as [`serialize_name`] writes it, with a number in any of its widths, and fails where
/// the first byte is neither zero nor one, where the name is cut short or not valid UTF-8, and
/// where bytes are left over.
#[verifier::external_body]
fn deserialize_name(bytes: &[u8], limit: u64) -> (r: Result<
    Option<String>,
    Box<bincode::ErrorKind>,
>)
    ensures
        r is Ok <==> payload_name(bytes@) is Some,
        r matches Ok(name) ==> payload_name(bytes@) == Some(text_view(name)),
{
    bincode::DefaultOptions::new().with_limit(limit).deserialize(bytes)
}

/// The bytes of a message: its length, then its payload.
pub open spec fn framed(payload: Seq<u8>) -> Seq<u8> {
    header(payload.len() as int) + payload
}

/// The bytes of a message. Fails if the payload has more bytes than any message may have.
pub fn encode(payload: &Vec<u8>) -> (r: Result<Vec<u8>, MessageError>)
    ensures
        r is Ok <==> payload@.len() <= MAX_LENGTH,
        r matches Ok(bytes) ==> bytes@ == framed(payload@),
        r matches Err(err) ==> err is Oversized,
{
    if payload.len() > MAX_LENGTH {
        return Err(MessageError::Oversized);
    }
    let length: u32 = payload.len() as u32;
    let mut bytes: Vec<u8> = Vec::new();
    bytes.push((length / 0x1000000) as u8);
    bytes.push((length / 0x10000 % 0x100) as u8);
    bytes.push((length / 0x100 % 0x100) as u8);
    bytes.push((length % 0x100) as u8);
    assert(bytes@ == header(payload@.len() as int));
    bytes.extend_from_slice(payload.as_slice());
    assert(bytes@ == framed(payload@));
    Ok(bytes)
}

/// The length that a message's first four bytes announce. Fails if it is more than any message
/// may have.
pub fn decode_length(bytes: [u8; 4]) -> (r: Result<u32, MessageError>)
    ensures
        r is Ok <==> announced(bytes@) <= MAX_LENGTH,
        r matches Ok(length) ==> length == announced(bytes@),
        r matches Err(err) ==> err is TooLarge,
{
    let length: u32 = (bytes[0] as u32) * 0x1000000 + (bytes[1] as u32) * 0x10000 + (
    bytes[2] as u32) * 0x100 + bytes[3] as u32;
    if length as usize > MAX_LENGTH {
        return Err(MessageError::TooLarge);
    }
    Ok(length)
}

/// The payload, out of the bytes that the stream gave when asked for `length` of them. Fails if
/// it gave fewer.
pub fn decode_payload(length: u32, bytes: Vec<u8>) -> (r: Result<Vec<u8>, MessageError>)
    ensures
        r == if bytes@.len() == length {
            Ok::<Vec<u8>, MessageError>(bytes)
        } else {
            Err(MessageError::TooShort)
        },
{
    if bytes.len() != length as usize {
        return Err(MessageError::TooShort);
    }
    Ok(bytes)
}

/// The message that tells a client's name.
pub fn encode_name(name: &Option<String>) -> (r: Result<Vec<u8>, MessageError>)
    ensures
        r is Ok <==> name_payload(text_view(*name)).len() <= MAX_LENGTH,
        r matches Ok(bytes) ==> bytes@ == framed(name_payload(text_view(*name))),
        r matches Err(err) ==> err is Unencodable,
{
    match serialize_name(name, MAX_LENGTH as u64) {
        Ok(payload) => encode(&payload),
        Err(err) => Err(MessageError::Unencodable(err)),
    }
}

/// The name that a message's payload tells. Fails if the payload is not what tells a name.
pub fn decode_name(payload: &Vec<u8>) -> (r: Result<Option<String>, MessageError>)
    ensures
        r is Ok <==> payload_name(payload@) is Some,
        r matches Ok(name) ==> payload_name(payload@) == Some(text_view(name)),
        r matches Err(err) ==> err is Malformed,
{
    match deserialize_name(payload.as_slice(), MAX_LENGTH as u64) {
        Ok(name) => Ok(name),
        Err(err) => Err(MessageError::Malformed(err)),
    }
}

/// A length is announced as it is read: the first four bytes of a message give back the number
/// of bytes that follow.
pub proof fn law_length_round_trip(length: u32)
    ensures
        header(length as int).len() == 4,
        announced(header(length as int)) == length,
{
    let n = length as int;
    assert(n / 0x1000000 <= 0xff);
    assert(n / 0x10000 == n / 0x1000000 * 0x100 + n / 0x10000 % 0x100);
    assert(n / 0x100 == n / 0x10000 * 0x100 + n / 0x100 % 0x100);
}

/// The payload of the message that a stream starts with, and what is left of the stream behind
/// it; nothing if the message announces too many bytes or the stream ends before it does.
pub open spec fn received(stream: Seq<u8>) -> Option<(Seq<u8>, Seq<u8>)> {
    let length = announced(stream.take(4));
    if stream.len() < 4 || length > MAX_LENGTH || stream.len() < 4 + length {
        None
    } else {
        Some((stream.subrange(4, 4 + length), stream.skip(4 + length)))
    }
}

/// What a stream gives when `count` values are read from it one after the other, each by `read`
/// out of the payload of a message, and what is left of the stream then; nothing if one of them
/// cannot be read.
pub open spec fn received_all<T>(
    stream: Seq<u8>,
    count: nat,
    read: spec_fn(Seq<u8>) -> Option<T>,
) -> Option<(Seq<T>, Seq<u8>)>
    decreases count,
{
    if count == 0 {
        Some((seq![], stream))
    } else {
        match received(stream) {
            Some((payload, behind)) => match (
                read(payload),
                received_all(behind, (count - 1) as nat, read),
            ) {
                (Some(value), Some((values, rest))) => Some((seq![value] + values, rest)),
                _ => None,
            },
            None => None,
        }
    }
}

/// The bytes of the messages for several values, one after the other, where `write` gives the
/// payload for a value.
pub open spec fn sent_all<T>(values: Seq<T>, write: spec_fn(T) -> Seq<u8>) -> Seq<u8>
    decreases values.len(),
{
    if values.len() == 0 {
        seq![]
    } else {
        framed(write(values[0])) + sent_all(values.skip(1), write)
    }
}

/// A payload that can be sent is received as it was sent, whatever follows it on the stream: its
/// length is never refused as too large, and nothing behind it is touched.
pub proof fn law_message_round_trip(payload: Seq<u8>, rest: Seq<u8>)
    requires
        payload.len() <= MAX_LENGTH,
    ensures
        announced((framed(payload) + rest).take(4)) == payload.len(),
        announced((framed(payload) + rest).take(4)) <= MAX_LENGTH,
        received(framed(payload) + rest) == Some((payload, rest)),
{
    law_length_round_trip(payload.len() as u32);
    let stream = framed(payload) + rest;
    assert(stream.take(4) =~= header(payload.len() as int));
    assert(stream.subrange(4, 4 + payload.len() as int) =~= payload);
    assert(stream.skip(4 + payload.len() as int) =~= rest);
}

/// Values that are sent one after the other are received in the same order, each as it was sent,
/// and the stream is left at exactly what follows them, whatever that is. It takes that what is
/// written of each value can be sent, and is read as that value.
pub proof fn law_messages_in_a_row<T>(
    values: Seq<T>,
    write: spec_fn(T) -> Seq<u8>,
    read: spec_fn(Seq<u8>) -> Option<T>,
    rest: Seq<u8>,
)
    requires
        forall|i: int|
            0 <= i < values.len() ==> write(#[trigger] values[i]).len() <= MAX_LENGTH && read(
                write(values[i]),
            ) == Some(values[i]),
    ensures
        received_all(sent_all(values, write) + rest, values.len(), read) == Some((values, rest)),
    decreases values.len(),
{
    let stream = sent_all(values, write) + rest;
    if values.len() == 0 {
        assert(stream =~= rest);
        assert(values =~= seq![]);
    } else {
        let others = values.skip(1);
        let behind = sent_all(others, write) + rest;
        assert forall|i: int| 0 <= i < others.len() implies write(#[trigger] others[i]).len()
            <= MAX_LENGTH && read(write(others[i])) == Some(others[i]) by {
            assert(others[i] == values[i + 1]);
        }
        law_messages_in_a_row(others, write, read, rest);
        law_message_round_trip(write(values[0]), behind);
        assert(stream =~= framed(write(values[0])) + behind);
        assert(seq![values[0]] + others =~= values);
    }
}

/// Names that are sent one after the other are received in the same order, each as it was sent,
/// whatever follows them.
pub proof fn law_names_in_a_row(names: Seq<Option<Seq<char>>>, rest: Seq<u8>)
    requires
        forall|i: int|
            0 <= i < names.len() ==> name_payload(#[trigger] names[i]).len() <= MAX_LENGTH,
    ensures
        ({
            let write = |name: Option<Seq<char>>| name_payload(name);
            let read = |payload: Seq<u8>| payload_name(payload);
            received_all(sent_all(names, write) + rest, names.len(), read) == Some((names, rest))
        }),
{
    let write = |name: Option<Seq<char>>| name_payload(name);
    let read = |payload: Seq<u8>| payload_name(payload);
    assert forall|i: int| 0 <= i < names.len() implies write(#[trigger] names[i]).len()
        <= MAX_LENGTH && read(write(names[i])) == Some(names[i]) by {
        law_name_round_trip(names[i]);
    }
    law_messages_in_a_row(names, write, read, rest);
}

/// The payload that tells the contents of a clipboard, as the case `variant` of an update or of an
/// answer: the number of the case, then the type and the data, each behind its number of bytes.
pub open spec fn contents_payload(variant: u32, contents: Contents) -> Seq<u8> {
    varint(variant as nat) + varint(encode_utf8(contents.mime).len()) + encode_utf8(contents.mime)
        + varint(contents.data.len()) + contents.data
}

/// Contents that are small enough to be shared fit in a message.
pub proof fn law_shareable_contents_fit(variant: u32, contents: Contents)
    requires
        shareable(contents),
    ensures
        contents_payload(variant, contents).len() <= MAX_LENGTH,
{
    lemma_varint_size(variant as nat);
    lemma_varint_size(encode_utf8(contents.mime).len());
    lemma_varint_size(contents.data.len());
}

proof fn lemma_varint_size(n: nat)
    ensures
        varint(n).len() <= 9,
{
    lemma_le_size(n, 2);
    lemma_le_size(n, 4);
    lemma_le_size(n, 8);
}

/// `count` bytes are `count` bytes.
pub proof fn lemma_le_size(n: nat, count: nat)
    ensures
        le_bytes(n, count).len() == count,
    decreases count,
{
    if count > 0 {
        lemma_le_size(n / 0x100, (count - 1) as nat);
    }
}

/// One more than the largest number that `count` bytes have room for.
spec fn room(count: nat) -> nat
    decreases count,
{
    if count == 0 {
        1
    } else {
        0x100 * room((count - 1) as nat)
    }
}

/// As long as `count` bytes have room for `n`, they give it back.
proof fn lemma_le_round_trip(n: nat, count: nat)
    requires
        n < room(count),
    ensures
        le_bytes(n, count).len() == count,
        le_value(le_bytes(n, count)) == n,
    decreases count,
{
    if count > 0 {
        let fewer = (count - 1) as nat;
        lemma_le_round_trip(n / 0x100, fewer);
        assert(le_bytes(n, count).skip(1) == le_bytes(n / 0x100, fewer));
        assert(le_bytes(n, count)[0] == n % 0x100);
    }
}

/// A number is read back as it was written, and nothing behind it is touched.
proof fn lemma_varint_round_trip(n: nat, rest: Seq<u8>)
    requires
        n <= u64::MAX,
    ensures
        counted(varint(n) + rest) == Some((n, rest)),
{
    let bytes = varint(n) + rest;
    reveal_with_fuel(room, 9);
    if n < 251 {
        assert(bytes.skip(1) == rest);
    } else {
        let count: nat = if n < 0x10000 {
            2
        } else if n < 0x1_0000_0000 {
            4
        } else {
            8
        };
        lemma_le_round_trip(n, count);
        assert(bytes.subrange(1, 1 + count as int) == le_bytes(n, count));
        assert(bytes.skip(1 + count as int) == rest);
    }
}

/// A name, or none, is read back as it was written.
pub proof fn law_name_round_trip(name: Option<Seq<char>>)
    requires
        name_payload(name).len() <= MAX_LENGTH,
    ensures
        payload_name(name_payload(name)) == Some(name),
{
    if let Some(text) = name {
        let bytes = encode_utf8(text);
        lemma_varint_round_trip(bytes.len(), bytes);
        assert(name_payload(name).skip(1) == varint(bytes.len()) + bytes);
        encode_utf8_valid_utf8(text);
        encode_utf8_decode_utf8(text);
    }
}

/// The length stands in front of a message in four bytes, most significant first, and the payload
/// behind them.
pub proof fn law_length_comes_first(payload: Seq<u8>)
    requires
        payload.len() <= MAX_LENGTH,
    ensures
        framed(payload).len() == payload.len() + 4,
        framed(payload).skip(4) == payload,
        framed(payload)[0] as int * 16777216 + framed(payload)[1] as int * 65536 + framed(
            payload,
        )[2] as int * 256 + framed(payload)[3] as int == payload.len(),
{
    law_length_round_trip(payload.len() as u32);
    assert(framed(payload).skip(4) =~= payload);
    let front = header(payload.len() as int);
    assert(framed(payload)[0] == front[0] && framed(payload)[1] == front[1]);
    assert(framed(payload)[2] == front[2] && framed(payload)[3] == front[3]);
}

/// Four bytes announce the number that they make up, most significant first.
pub proof fn law_announced_length(bytes: Seq<u8>)
    ensures
        announced(bytes) == ((bytes[0] as int * 256 + bytes[1]) * 256 + bytes[2]) * 256 + bytes[3],
        MAX_LENGTH == 4194304 + 4096,
{
}

} // verus!
