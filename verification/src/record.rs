//! The persisted record type and its self-delimiting byte format.
//!
//! A record is framed as one tag byte, then each string as its UTF-8 byte
//! length (eight little-endian bytes) followed by its UTF-8 bytes. The
//! framing makes a stream of records decodable back to back, and lets a
//! decoder tell a truncated trailing write from well-formed data.

use vstd::bytes::{spec_u64_from_le_bytes, spec_u64_to_le_bytes};
use vstd::prelude::*;
use vstd::utf8::{decode_utf8, encode_utf8, valid_utf8};

verus! {

/// Tag byte that opens the encoding of a `Set` record.
pub const TAG_SET: u8 = 0;

/// Tag byte that opens the encoding of a `Remove` record.
pub const TAG_REMOVE: u8 = 1;

/// One persisted log record: a mutation of the store.
#[derive(Debug)]
pub enum Record {
    /// Bind `key` to `value`.
    Insert { key: String, value: String },
    /// Unbind `key`.
    Remove { key: String },
}

/// The mathematical shape of a record: its strings as character sequences.
pub enum RecordModel {
    /// Bind `key` to `value`.
    Insert { key: Seq<char>, value: Seq<char> },
    /// Unbind `key`.
    Remove { key: Seq<char> },
}

impl View for Record {
    type V = RecordModel;

    open spec fn view(&self) -> RecordModel {
        match self {
            Record::Insert { key, value } => RecordModel::Insert { key: key@, value: value@ },
            Record::Remove { key } => RecordModel::Remove { key: key@ },
        }
    }
}

/// True when the UTF-8 form of `s` is short enough for its length to be
/// framed in eight bytes.
pub open spec fn str_fits(s: Seq<char>) -> bool {
    encode_utf8(s).len() <= u64::MAX
}

/// True when every string of `r` satisfies [`str_fits`]. Every record built
/// from executable strings does.
pub open spec fn rec_fits(r: RecordModel) -> bool {
    match r {
        RecordModel::Insert { key, value } => str_fits(key) && str_fits(value),
        RecordModel::Remove { key } => str_fits(key),
    }
}

/// The framed byte form of one string: the length of its UTF-8 bytes as
/// eight little-endian bytes, then those bytes.
pub open spec fn spec_enc_str(s: Seq<char>) -> Seq<u8> {
    spec_u64_to_le_bytes(encode_utf8(s).len() as u64) + encode_utf8(s)
}

/// The byte encoding of one record.
pub open spec fn spec_enc_rec(r: RecordModel) -> Seq<u8> {
    match r {
        RecordModel::Insert { key, value } => seq![TAG_SET] + spec_enc_str(key) + spec_enc_str(
            value,
        ),
        RecordModel::Remove { key } => seq![TAG_REMOVE] + spec_enc_str(key),
    }
}

/// The byte encoding of a whole sequence of records, back to back.
pub open spec fn spec_enc_recs(rs: Seq<RecordModel>) -> Seq<u8>
    decreases rs.len(),
{
    if rs.len() == 0 {
        Seq::<u8>::empty()
    } else {
        spec_enc_recs(rs.drop_last()) + spec_enc_rec(rs.last())
    }
}

/// Decoding one framed string from `b` at `pos`: the characters it spells
/// and the position after it, or `None` when no whole framed string with
/// valid UTF-8 starts there.
pub open spec fn spec_dec_str(b: Seq<u8>, pos: int) -> Option<(Seq<char>, int)> {
    if !(0 <= pos && pos + 8 <= b.len()) {
        None
    } else {
        let n = spec_u64_from_le_bytes(b.subrange(pos, pos + 8)) as int;
        if pos + 8 + n > b.len() {
            None
        } else {
            let payload = b.subrange(pos + 8, pos + 8 + n);
            if valid_utf8(payload) {
                Some((decode_utf8(payload), pos + 8 + n))
            } else {
                None
            }
        }
    }
}

/// Decoding one record from `b` at `pos`: the record and the position after
/// it, or `None` when no whole record starts there.
pub open spec fn spec_dec_rec(b: Seq<u8>, pos: int) -> Option<(RecordModel, int)> {
    if !(0 <= pos && pos < b.len()) {
        None
    } else if b[pos] == TAG_SET {
        match spec_dec_str(b, pos + 1) {
            Some((k, p)) => match spec_dec_str(b, p) {
                Some((v, q)) => Some((RecordModel::Insert { key: k, value: v }, q)),
                None => None,
            },
            None => None,
        }
    } else if b[pos] == TAG_REMOVE {
        match spec_dec_str(b, pos + 1) {
            Some((k, p)) => Some((RecordModel::Remove { key: k }, p)),
            None => None,
        }
    } else {
        None
    }
}

/// True when every record of `rs` satisfies [`rec_fits`].
pub open spec fn all_fit(rs: Seq<RecordModel>) -> bool {
    forall|i: int| 0 <= i < rs.len() ==> rec_fits(#[trigger] rs[i])
}

} // verus!
