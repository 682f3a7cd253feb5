//! Records and their encoding in the index: the sixteen key bytes of the id,
//! then the UTF-8 bytes of the hash.
use crate::error::StoreError;
use crate::key::{id_key, id_to_key, key_to_id, key_value, lemma_id_key_value, KEY_LEN};
use vstd::prelude::*;
use vstd::utf8::{decode_utf8, encode_utf8, encode_utf8_decode_utf8, encode_utf8_valid_utf8, valid_utf8};

verus! {

/// One stored entry: a time-ordered id and the integrity descriptor
/// (`<algorithm>-<digest>`) of its payload.
#[derive(Debug, Clone, PartialEq, Eq)]
pub struct Frame {
    pub id: u128,
    pub hash: String,
}

/// The bytes under which a record with `id` and `hash` is kept.
pub open spec fn record_encoding(id: u128, hash: Seq<char>) -> Seq<u8> {
    id_key(id) + encode_utf8(hash)
}

/// The id and hash that the bytes `b` hold, if they are a record at all.
pub open spec fn record_decoding(b: Seq<u8>) -> Option<(u128, Seq<char>)> {
    if b.len() >= KEY_LEN && valid_utf8(b.subrange(KEY_LEN as int, b.len() as int)) {
        Some(
            (
                key_value(b.subrange(0, KEY_LEN as int)) as u128,
                decode_utf8(b.subrange(KEY_LEN as int, b.len() as int)),
            ),
        )
    } else {
        None
    }
}

/// Decoding an encoded record gives back its id and hash.
pub proof fn lemma_record_round_trip(id: u128, hash: Seq<char>)
    ensures
        record_decoding(record_encoding(id, hash)) == Some((id, hash)),
{
    let b = record_encoding(id, hash);
    lemma_id_key_value(id);
    assert(b.subrange(0, KEY_LEN as int) == id_key(id));
    assert(b.subrange(KEY_LEN as int, b.len() as int) == encode_utf8(hash));
    encode_utf8_valid_utf8(hash);
    encode_utf8_decode_utf8(hash);
}

/// Relies on `String::from_utf8`: it accepts exactly the valid UTF-8 byte
/// strings, and the string holds the characters they encode.
#[verifier::external_body]
fn string_from_utf8(b: Vec<u8>) -> (r: Option<String>)
    ensures
        r is Some <==> valid_utf8(b@),
        r matches Some(s) ==> s@ == decode_utf8(b@),
{
    String::from_utf8(b).ok()
}

/// The bytes under which `frame` is kept in the index.
pub fn encode_record(frame: &Frame) -> (r: Vec<u8>)
    ensures
        r@ == record_encoding(frame.id, frame.hash@),
{
    let mut v = id_to_key(frame.id);
    let text = frame.hash.as_str().as_bytes();
    v.extend_from_slice(text);
    assert(v@ == record_encoding(frame.id, frame.hash@));
    v
}

/// Reads a record back from the bytes it is kept under.
pub fn decode_record(b: &[u8]) -> (r: Result<Frame, StoreError>)
    ensures
        match record_decoding(b@) {
            Some((id, hash)) => r matches Ok(f) && f.id == id && f.hash@ == hash,
            None => r == Err::<Frame, StoreError>(StoreError::Decode),
        },
{
    if b.len() < KEY_LEN {
        return Err(StoreError::Decode);
    }
    let (head, tail) = b.split_at(KEY_LEN);
    let id = key_to_id(head);
    match string_from_utf8(vstd::slice::slice_to_vec(tail)) {
        Some(hash) => Ok(Frame { id, hash }),
        None => Err(StoreError::Decode),
    }
}

} // verus!
