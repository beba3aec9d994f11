//! The record codec: an 8-byte big-endian length, then a JSON payload that
//! names the key and the value.

use crate::error::KvsError;
use byteorder::ByteOrder;
use vstd::prelude::*;
use vstd::slice::slice_subrange;
use vstd::string::StringExecFns;

verus! {

/// The eight bytes of `n`, most significant first.
pub open spec fn be_bytes(n: u64) -> Seq<u8> {
    seq![
        ((n >> 56) & 0xff) as u8,
        ((n >> 48) & 0xff) as u8,
        ((n >> 40) & 0xff) as u8,
        ((n >> 32) & 0xff) as u8,
        ((n >> 24) & 0xff) as u8,
        ((n >> 16) & 0xff) as u8,
        ((n >> 8) & 0xff) as u8,
        (n & 0xff) as u8,
    ]
}

/// The number that the first eight bytes of `bytes` spell, most significant
/// byte first.
pub open spec fn be_value(bytes: Seq<u8>) -> u64
    recommends
        bytes.len() >= 8,
{
    (bytes[0] as u64) << 56 | (bytes[1] as u64) << 48 | (bytes[2] as u64) << 40 | (bytes[3] as u64)
        << 32 | (bytes[4] as u64) << 24 | (bytes[5] as u64) << 16 | (bytes[6] as u64) << 8 | (
    bytes[7] as u64)
}

/// Reading back the bytes of a number gives the number.
pub proof fn lemma_be_value_of_bytes(n: u64)
    ensures
        be_bytes(n).len() == 8,
        be_value(be_bytes(n)) == n,
{
    let b0 = ((n >> 56) & 0xff) as u8;
    let b1 = ((n >> 48) & 0xff) as u8;
    let b2 = ((n >> 40) & 0xff) as u8;
    let b3 = ((n >> 32) & 0xff) as u8;
    let b4 = ((n >> 24) & 0xff) as u8;
    let b5 = ((n >> 16) & 0xff) as u8;
    let b6 = ((n >> 8) & 0xff) as u8;
    let b7 = (n & 0xff) as u8;
    assert((b0 as u64) << 56 | (b1 as u64) << 48 | (b2 as u64) << 40 | (b3 as u64) << 32 | (
    b4 as u64) << 24 | (b5 as u64) << 16 | (b6 as u64) << 8 | (b7 as u64) == n) by (bit_vector)
        requires
            b0 == ((n >> 56) & 0xff) as u8,
            b1 == ((n >> 48) & 0xff) as u8,
            b2 == ((n >> 40) & 0xff) as u8,
            b3 == ((n >> 32) & 0xff) as u8,
            b4 == ((n >> 24) & 0xff) as u8,
            b5 == ((n >> 16) & 0xff) as u8,
            b6 == ((n >> 8) & 0xff) as u8,
            b7 == (n & 0xff) as u8,
    ;
}

/// Calls `byteorder::BigEndian::write_u64` on a fresh buffer of eight bytes.
/// Trusted: the buffer then holds the big-endian bytes of `n`.
#[verifier::external_body]
fn write_length(n: u64) -> (out: Vec<u8>)
    ensures
        out@ == be_bytes(n),
{
    let mut out = vec![0u8; 8];
    byteorder::BigEndian::write_u64(&mut out, n);
    out
}

/// Calls `byteorder::BigEndian::read_u64`, which panics on fewer than eight
/// bytes.  Trusted: the result is the number that the first eight bytes spell
/// in big-endian order.
#[verifier::external_body]
fn read_length(bytes: &[u8]) -> (n: u64)
    requires
        bytes@.len() >= 8,
    ensures
        n == be_value(bytes@),
{
    byteorder::BigEndian::read_u64(bytes)
}

/// The error type of `serde_json`, carried from its calls to where it is
/// mapped to [`KvsError::Codec`].
#[verifier::external_type_specification]
#[verifier::external_body]
pub struct ExJsonError(serde_json::Error);

/// The text that `serde_json::to_vec` writes for a string: the string as a
/// JSON string, between quotes and with its escapes; `None` where it reports
/// an error.
pub uninterp spec fn json_string_text(text: Seq<char>) -> Option<Seq<u8>>;

/// The members that `serde_json::from_slice` reads from a text that spells a
/// JSON object whose members are all strings, in the order of their names;
/// `None` where it reports an error.
pub uninterp spec fn json_object_members(text: Seq<u8>) -> Option<Seq<(Seq<char>, Seq<char>)>>;

/// The members of an object as sequences of characters.
pub open spec fn members_view(members: Seq<(String, String)>) -> Seq<(Seq<char>, Seq<char>)> {
    Seq::new(members.len(), |i: int| (members[i].0@, members[i].1@))
}

/// Calls `serde_json::to_vec` on a string.  Trusted: the text depends on the
/// string alone, so it has a name, and nothing else is claimed of it.
#[verifier::external_body]
fn write_json_string(text: &str) -> (out: Result<Vec<u8>, serde_json::Error>)
    ensures
        match out {
            Ok(json) => json_string_text(text@) == Some(json@),
            Err(_) => json_string_text(text@) is None,
        },
{
    serde_json::to_vec(text)
}

/// Calls `serde_json::from_slice` for an object whose members are strings.
/// Trusted: the members depend on the text alone, so they have a name, and
/// nothing else is claimed of them.
#[verifier::external_body]
fn read_json_object(text: &[u8]) -> (out: Result<Vec<(String, String)>, serde_json::Error>)
    ensures
        match out {
            Ok(members) => json_object_members(text@) == Some(members_view(members@)),
            Err(_) => json_object_members(text@) is None,
        },
{
    let object: std::collections::BTreeMap<String, String> = serde_json::from_slice(text)?;
    Ok(object.into_iter().collect())
}

/// The value of the first member from position `from` on that is called
/// `name`.
pub open spec fn member_from(members: Seq<(Seq<char>, Seq<char>)>, name: Seq<char>, from: int)
    -> Option<Seq<char>>
    decreases members.len() - from,
{
    if from < 0 || from >= members.len() {
        None
    } else if members[from].0 == name {
        Some(members[from].1)
    } else {
        member_from(members, name, from + 1)
    }
}

/// The bytes `{"key":`, with which a payload starts.
pub open spec fn payload_opening() -> Seq<u8> {
    seq![0x7bu8, 0x22, 0x6b, 0x65, 0x79, 0x22, 0x3a]
}

/// The bytes `,"value":`, which stand between the key and the value.
pub open spec fn payload_middle() -> Seq<u8> {
    seq![0x2cu8, 0x22, 0x76, 0x61, 0x6c, 0x75, 0x65, 0x22, 0x3a]
}

/// The byte `}`, with which a payload ends.
pub open spec fn payload_closing() -> Seq<u8> {
    seq![0x7du8]
}

/// The payload of the record for `key` and `value`: the JSON object
/// `{"key":…,"value":…}` with the two as JSON strings.
pub open spec fn payload_text(key: Seq<char>, value: Seq<char>) -> Option<Seq<u8>> {
    match (json_string_text(key), json_string_text(value)) {
        (Some(k), Some(v)) => Some(
            payload_opening() + k + payload_middle() + v + payload_closing(),
        ),
        _ => None,
    }
}

/// The key and the value that a payload names: those of a JSON object that
/// has a member `key` and a member `value`.
pub open spec fn payload_fields(text: Seq<u8>) -> Option<(Seq<char>, Seq<char>)> {
    match json_object_members(text) {
        Some(members) => match (
            member_from(members, "key"@, 0),
            member_from(members, "value"@, 0),
        ) {
            (Some(key), Some(value)) => Some((key, value)),
            _ => None,
        },
        None => None,
    }
}

/// Looks a member up by its name.
fn find_member(members: &Vec<(String, String)>, name: &str) -> (out: Option<String>)
    ensures
        match out {
            Some(value) => member_from(members_view(members@), name@, 0) == Some(value@),
            None => member_from(members_view(members@), name@, 0) is None,
        },
{
    let wanted = String::from_str(name);
    let mut i: usize = 0;
    while i < members.len()
        invariant
            i <= members.len(),
            wanted@ == name@,
            member_from(members_view(members@), name@, 0) == member_from(
                members_view(members@),
                name@,
                i as int,
            ),
        decreases members.len() - i,
    {
        if members[i].0 == wanted {
            return Some(members[i].1.clone());
        }
        i += 1;
    }
    None
}

/// Writes the payload of the record for `key` and `value`.
pub fn encode_payload(key: &str, value: &str) -> (out: Result<Vec<u8>, KvsError>)
    ensures
        match out {
            Ok(text) => payload_text(key@, value@) == Some(text@),
            Err(e) => e is Codec && payload_text(key@, value@) is None,
        },
{
    let mut k = match write_json_string(key) {
        Ok(k) => k,
        Err(_) => {
            return Err(KvsError::Codec);
        },
    };
    let mut v = match write_json_string(value) {
        Ok(v) => v,
        Err(_) => {
            return Err(KvsError::Codec);
        },
    };
    let mut text: Vec<u8> = vec![0x7bu8, 0x22, 0x6b, 0x65, 0x79, 0x22, 0x3a];
    assert(text@ =~= payload_opening());
    text.append(&mut k);
    let mut middle: Vec<u8> = vec![0x2cu8, 0x22, 0x76, 0x61, 0x6c, 0x75, 0x65, 0x22, 0x3a];
    assert(middle@ =~= payload_middle());
    text.append(&mut middle);
    text.append(&mut v);
    text.push(0x7du8);
    assert(text@ =~= payload_text(key@, value@)->0);
    Ok(text)
}

/// Reads the key and the value that a payload names.
pub fn decode_payload(text: &[u8]) -> (out: Result<(String, String), KvsError>)
    ensures
        match out {
            Ok((key, value)) => payload_fields(text@) == Some((key@, value@)),
            Err(e) => e is Codec && payload_fields(text@) is None,
        },
{
    match read_json_object(text) {
        Ok(members) => {
            let key = find_member(&members, "key");
            let value = find_member(&members, "value");
            match (key, value) {
                (Some(key), Some(value)) => Ok((key, value)),
                _ => Err(KvsError::Codec),
            }
        },
        Err(_) => Err(KvsError::Codec),
    }
}

/// The value that marks a record as a tombstone.
pub open spec fn tombstone() -> Seq<char> {
    "rm"@
}

/// One record of the log, as it is read from a segment.
pub struct RecordView {
    /// The key that the record names.
    pub key: Seq<char>,
    /// The value that the record names; the tombstone marks a removal.
    pub value: Seq<char>,
    /// The length of the payload, without the eight bytes of the prefix.
    pub size: nat,
}

/// The record that starts at `pos` in `data`: eight bytes of length, then a
/// payload of that length that names a key and a value.
pub open spec fn record_at(data: Seq<u8>, pos: int) -> Option<RecordView> {
    if 0 <= pos && pos + 8 <= data.len() {
        let size = be_value(data.subrange(pos, pos + 8)) as int;
        if pos + 8 + size <= data.len() {
            match payload_fields(data.subrange(pos + 8, pos + 8 + size)) {
                Some((key, value)) => Some(RecordView { key, value, size: size as nat }),
                None => None,
            }
        } else {
            None
        }
    } else {
        None
    }
}

/// A payload with its length in front.
pub open spec fn framed(payload: Seq<u8>) -> Seq<u8> {
    be_bytes(payload.len() as u64) + payload
}

/// Whether a record for `key` and `value` can be written and read back: the
/// payload can be written, it fits a record, and reading it gives the key and
/// the value again.
pub open spec fn writable(key: Seq<char>, value: Seq<char>) -> bool {
    match payload_text(key, value) {
        Some(text) => text.len() + 8 <= usize::MAX && payload_fields(text) == Some((key, value)),
        None => false,
    }
}

/// The bytes of the record for `key` and `value`.
pub open spec fn record_text(key: Seq<char>, value: Seq<char>) -> Seq<u8>
    recommends
        writable(key, value),
{
    framed(payload_text(key, value)->0)
}

/// A framed payload that names a key and a value is a record wherever it
/// stands in a segment.
pub proof fn lemma_record_at_framed(
    data: Seq<u8>,
    payload: Seq<u8>,
    tail: Seq<u8>,
    key: Seq<char>,
    value: Seq<char>,
)
    requires
        payload.len() + 8 <= usize::MAX,
        payload_fields(payload) == Some((key, value)),
    ensures
        record_at(data + framed(payload) + tail, data.len() as int) == Some(
            RecordView { key, value, size: payload.len() },
        ),
{
    let whole = data + framed(payload) + tail;
    let pos = data.len() as int;
    lemma_be_value_of_bytes(payload.len() as u64);
    assert(whole.subrange(pos, pos + 8) =~= be_bytes(payload.len() as u64));
    assert(whole.subrange(pos + 8, pos + 8 + payload.len()) =~= payload);
}

/// A record stays where it is when bytes are added behind the segment.
pub proof fn lemma_record_at_extended(data: Seq<u8>, tail: Seq<u8>, pos: int)
    requires
        record_at(data, pos) is Some,
    ensures
        record_at(data + tail, pos) == record_at(data, pos),
{
    let whole = data + tail;
    let size = be_value(data.subrange(pos, pos + 8)) as int;
    assert(whole.subrange(pos, pos + 8) =~= data.subrange(pos, pos + 8));
    assert(whole.subrange(pos + 8, pos + 8 + size) =~= data.subrange(pos + 8, pos + 8 + size));
}

/// The bytes of a record, copied behind another sequence of bytes, are the
/// same record there.
pub proof fn lemma_record_at_copied(source: Seq<u8>, pos: int, target: Seq<u8>)
    requires
        record_at(source, pos) is Some,
    ensures
        record_at(
            target + source.subrange(pos, pos + 8 + record_at(source, pos)->0.size),
            target.len() as int,
        ) == record_at(source, pos),
{
    let size = be_value(source.subrange(pos, pos + 8)) as int;
    let copy = source.subrange(pos, pos + 8 + size);
    let whole = target + copy;
    let at = target.len() as int;
    assert(whole.subrange(at, at + 8) =~= source.subrange(pos, pos + 8));
    assert(whole.subrange(at + 8, at + 8 + size) =~= source.subrange(pos + 8, pos + 8 + size));
}

/// Reads the record that starts at `pos`.
pub fn read_record(data: &[u8], pos: usize) -> (out: Result<(String, String, usize), KvsError>)
    ensures
        match out {
            Ok((key, value, size)) => record_at(data@, pos as int) == Some(
                RecordView { key: key@, value: value@, size: size as nat },
            ),
            Err(e) => e is Codec && record_at(data@, pos as int) is None,
        },
{
    let len = data.len();
    if pos > len || len - pos < 8 {
        return Err(KvsError::Codec);
    }
    let n = read_length(slice_subrange(data, pos, pos + 8));
    let rest = len - pos - 8;
    if n > rest as u64 {
        return Err(KvsError::Codec);
    }
    let size = n as usize;
    match decode_payload(slice_subrange(data, pos + 8, pos + 8 + size)) {
        Ok((key, value)) => Ok((key, value, size)),
        Err(e) => Err(e),
    }
}

/// Writes the record for `key` and `value` and reads it back, so that only a
/// record that names this key and this value again is handed out.
pub fn encode_record(key: &String, value: &String) -> (out: Result<Vec<u8>, KvsError>)
    ensures
        match out {
            Ok(bytes) => writable(key@, value@) && bytes@ == record_text(key@, value@),
            Err(e) => e is Codec && !writable(key@, value@),
        },
{
    let payload = match encode_payload(key.as_str(), value.as_str()) {
        Ok(payload) => payload,
        Err(e) => {
            return Err(e);
        },
    };
    if payload.len() > usize::MAX - 8 {
        return Err(KvsError::Codec);
    }
    match decode_payload(payload.as_slice()) {
        Ok((k, v)) => {
            if !(k == *key && v == *value) {
                return Err(KvsError::Codec);
            }
        },
        Err(e) => {
            return Err(e);
        },
    }
    let mut bytes = write_length(payload.len() as u64);
    let mut payload = payload;
    bytes.append(&mut payload);
    Ok(bytes)
}

} // verus!
