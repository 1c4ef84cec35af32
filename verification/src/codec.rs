//! Executable encoding and decoding of records, and the lemmas that tie the
//! two directions of the byte format together.

use crate::record::{
    all_fit, rec_fits, spec_dec_rec, spec_dec_str, spec_enc_rec, spec_enc_recs, spec_enc_str,
    str_fits, Record, RecordModel, TAG_REMOVE, TAG_SET,
};
use vstd::bytes::{
    lemma_auto_spec_u64_to_from_le_bytes, spec_u64_from_le_bytes, spec_u64_to_le_bytes,
    u64_from_le_bytes, u64_to_le_bytes,
};
use vstd::prelude::*;
use vstd::slice::{slice_subrange, slice_to_vec};
use vstd::utf8::{
    decode_utf8, decode_utf8_encode_utf8, encode_utf8, encode_utf8_decode_utf8,
    encode_utf8_valid_utf8, valid_utf8,
};

verus! {

/// Relies on `String::from_utf8`: it succeeds exactly on valid UTF-8 input
/// and returns the string those bytes spell.
#[verifier::external_body]
fn bytes_to_string(bytes: Vec<u8>) -> (r: Option<String>)
    ensures
        r matches Some(s) ==> valid_utf8(bytes@) && s@ == decode_utf8(bytes@),
        r is None ==> !valid_utf8(bytes@),
{
    match String::from_utf8(bytes) {
        Ok(s) => Some(s),
        Err(_) => None,
    }
}

/// Appends the framed byte form of `s` to `out`.
fn encode_str_into(out: &mut Vec<u8>, s: &String)
    ensures
        final(out)@ == old(out)@ + spec_enc_str(s@),
        str_fits(s@),
{
    let bytes = s.as_str().as_bytes();
    let n = bytes.len();
    assert(bytes@ == encode_utf8(s@));
    let mut framed = u64_to_le_bytes(n as u64);
    out.append(&mut framed);
    out.extend_from_slice(bytes);
    assert(final(out)@ =~= old(out)@ + spec_enc_str(s@));
}

/// The byte encoding of one record.
pub fn encode_record(r: &Record) -> (out: Vec<u8>)
    ensures
        out@ == spec_enc_rec(r@),
        rec_fits(r@),
{
    let mut out: Vec<u8> = Vec::new();
    match r {
        Record::Insert { key, value } => {
            out.push(TAG_SET);
            encode_str_into(&mut out, key);
            encode_str_into(&mut out, value);
            assert(out@ =~= seq![TAG_SET] + spec_enc_str(key@) + spec_enc_str(value@));
        },
        Record::Remove { key } => {
            out.push(TAG_REMOVE);
            encode_str_into(&mut out, key);
            assert(out@ =~= seq![TAG_REMOVE] + spec_enc_str(key@));
        },
    }
    out
}

/// Decodes one framed string of `data` starting at `pos`, returning the
/// string and the position after it.
fn decode_str_at(data: &Vec<u8>, pos: usize) -> (r: Option<(String, usize)>)
    requires
        pos <= data@.len(),
    ensures
        r matches Some(p) ==> spec_dec_str(data@, pos as int) == Some((p.0@, p.1 as int))
            && pos < p.1 <= data@.len(),
        r is None ==> spec_dec_str(data@, pos as int) is None,
{
    if data.len() - pos < 8 {
        return None;
    }
    let len_bytes = slice_subrange(data.as_slice(), pos, pos + 8);
    let n64 = u64_from_le_bytes(len_bytes);
    if n64 > (data.len() - pos - 8) as u64 {
        return None;
    }
    let n = n64 as usize;
    let payload = slice_to_vec(slice_subrange(data.as_slice(), pos + 8, pos + 8 + n));
    assert(payload@ == data@.subrange(pos + 8, pos + 8 + n as int));
    match bytes_to_string(payload) {
        Some(s) => Some((s, pos + 8 + n)),
        None => None,
    }
}

/// Decodes one record of `data` starting at `pos`, returning the record and
/// the position after it, or `None` when no whole record starts there.
pub fn decode_record_at(data: &Vec<u8>, pos: usize) -> (r: Option<(Record, usize)>)
    requires
        pos <= data@.len(),
    ensures
        r matches Some(p) ==> spec_dec_rec(data@, pos as int) == Some((p.0@, p.1 as int))
            && pos < p.1 <= data@.len(),
        r is None ==> spec_dec_rec(data@, pos as int) is None,
{
    if pos >= data.len() {
        return None;
    }
    let tag = data[pos];
    if tag == TAG_SET {
        match decode_str_at(data, pos + 1) {
            Some((key, p)) => match decode_str_at(data, p) {
                Some((value, q)) => Some((Record::Insert { key, value }, q)),
                None => None,
            },
            None => None,
        }
    } else if tag == TAG_REMOVE {
        match decode_str_at(data, pos + 1) {
            Some((key, p)) => Some((Record::Remove { key }, p)),
            None => None,
        }
    } else {
        None
    }
}

/// A framed string placed at `pos` decodes from there, back to itself.
pub proof fn lemma_dec_of_enc_str(b: Seq<u8>, pos: int, s: Seq<char>)
    requires
        str_fits(s),
        0 <= pos,
        pos + spec_enc_str(s).len() <= b.len(),
        b.subrange(pos, pos + spec_enc_str(s).len()) == spec_enc_str(s),
    ensures
        spec_dec_str(b, pos) == Some((s, pos + spec_enc_str(s).len())),
{
    lemma_auto_spec_u64_to_from_le_bytes();
    broadcast use encode_utf8_valid_utf8, encode_utf8_decode_utf8;

    let ub = encode_utf8(s);
    let n = ub.len() as int;
    let le = spec_u64_to_le_bytes(ub.len() as u64);
    let len_total = spec_enc_str(s).len() as int;
    assert(len_total == 8 + n);
    assert forall|i: int| 0 <= i < len_total implies b[pos + i] == spec_enc_str(s)[i] by {
        assert(spec_enc_str(s)[i] == b.subrange(pos, pos + len_total)[i]);
    }
    assert(b.subrange(pos, pos + 8) =~= le);
    assert(spec_u64_from_le_bytes(b.subrange(pos, pos + 8)) == ub.len() as u64);
    assert forall|j: int| 0 <= j < n implies b.subrange(pos + 8, pos + 8 + n)[j] == ub[j] by {
        assert(b[pos + (8 + j)] == spec_enc_str(s)[8 + j]);
    }
    assert(b.subrange(pos + 8, pos + 8 + n) =~= ub);
    assert(decode_utf8(ub) == s);
}

/// Whatever one framed string decodes to, its encoding is exactly the bytes
/// it was decoded from.
pub proof fn lemma_enc_of_dec_str(b: Seq<u8>, pos: int)
    ensures
        spec_dec_str(b, pos) matches Some(p) ==> {
            &&& pos + 8 <= p.1 <= b.len()
            &&& spec_enc_str(p.0).len() == p.1 - pos
            &&& b.subrange(pos, p.1) == spec_enc_str(p.0)
            &&& str_fits(p.0)
        },
{
    match spec_dec_str(b, pos) {
        Some(p) => {
            lemma_auto_spec_u64_to_from_le_bytes();
            broadcast use decode_utf8_encode_utf8;

            let n64 = spec_u64_from_le_bytes(b.subrange(pos, pos + 8));
            let n = n64 as int;
            let payload = b.subrange(pos + 8, pos + 8 + n);
            assert(valid_utf8(payload));
            assert(encode_utf8(decode_utf8(payload)) == payload);
            assert(payload.len() as u64 == n64);
            assert(spec_u64_to_le_bytes(n64) == b.subrange(pos, pos + 8));
            assert(b.subrange(pos, pos + 8 + n) =~= spec_enc_str(decode_utf8(payload)));
        },
        None => {},
    }
}

/// A record's encoding placed at `pos` decodes from there, back to itself.
pub proof fn lemma_dec_of_enc_rec(b: Seq<u8>, pos: int, r: RecordModel)
    requires
        rec_fits(r),
        0 <= pos,
        pos + spec_enc_rec(r).len() <= b.len(),
        b.subrange(pos, pos + spec_enc_rec(r).len()) == spec_enc_rec(r),
    ensures
        spec_dec_rec(b, pos) == Some((r, pos + spec_enc_rec(r).len())),
{
    lemma_auto_spec_u64_to_from_le_bytes();
    let enc = spec_enc_rec(r);
    let len_total = enc.len() as int;
    assert forall|i: int| 0 <= i < len_total implies b[pos + i] == enc[i] by {
        assert(enc[i] == b.subrange(pos, pos + len_total)[i]);
    }
    match r {
        RecordModel::Insert { key, value } => {
            let es1 = spec_enc_str(key);
            let es2 = spec_enc_str(value);
            let l1 = es1.len() as int;
            let l2 = es2.len() as int;
            assert(enc == seq![TAG_SET] + es1 + es2);
            assert(b[pos + 0] == enc[0]);
            assert(b[pos] == TAG_SET);
            assert forall|j: int| 0 <= j < l1 implies b.subrange(pos + 1, pos + 1 + l1)[j]
                == es1[j] by {
                assert(b[pos + (1 + j)] == enc[1 + j]);
            }
            assert(b.subrange(pos + 1, pos + 1 + l1) =~= es1);
            lemma_dec_of_enc_str(b, pos + 1, key);
            assert forall|j: int| 0 <= j < l2 implies b.subrange(pos + 1 + l1, pos + 1 + l1 + l2)[j]
                == es2[j] by {
                assert(b[pos + (1 + l1 + j)] == enc[1 + l1 + j]);
            }
            assert(b.subrange(pos + 1 + l1, pos + 1 + l1 + l2) =~= es2);
            lemma_dec_of_enc_str(b, pos + 1 + l1, value);
        },
        RecordModel::Remove { key } => {
            let es1 = spec_enc_str(key);
            let l1 = es1.len() as int;
            assert(enc == seq![TAG_REMOVE] + es1);
            assert(b[pos + 0] == enc[0]);
            assert(b[pos] == TAG_REMOVE);
            assert forall|j: int| 0 <= j < l1 implies b.subrange(pos + 1, pos + 1 + l1)[j]
                == es1[j] by {
                assert(b[pos + (1 + j)] == enc[1 + j]);
            }
            assert(b.subrange(pos + 1, pos + 1 + l1) =~= es1);
            lemma_dec_of_enc_str(b, pos + 1, key);
        },
    }
}

/// Whatever one record decodes to, its encoding is exactly the bytes it was
/// decoded from. Decoding therefore never invents or drops bytes.
pub proof fn lemma_enc_of_dec_rec(b: Seq<u8>, pos: int)
    ensures
        spec_dec_rec(b, pos) matches Some(p) ==> {
            &&& pos + 9 <= p.1 <= b.len()
            &&& spec_enc_rec(p.0).len() == p.1 - pos
            &&& b.subrange(pos, p.1) == spec_enc_rec(p.0)
            &&& rec_fits(p.0)
        },
{
    match spec_dec_rec(b, pos) {
        Some(p) => {
            lemma_auto_spec_u64_to_from_le_bytes();
            if b[pos] == TAG_SET {
                lemma_enc_of_dec_str(b, pos + 1);
                let kp = spec_dec_str(b, pos + 1)->Some_0;
                lemma_enc_of_dec_str(b, kp.1);
                let vp = spec_dec_str(b, kp.1)->Some_0;
                assert(b.subrange(pos, vp.1) =~= seq![TAG_SET] + spec_enc_str(kp.0)
                    + spec_enc_str(vp.0));
            } else {
                lemma_enc_of_dec_str(b, pos + 1);
                let kp = spec_dec_str(b, pos + 1)->Some_0;
                assert(b.subrange(pos, kp.1) =~= seq![TAG_REMOVE] + spec_enc_str(kp.0));
            }
        },
        None => {},
    }
}

/// The encoding of one record is never empty: at least the tag and one
/// framed length are present.
pub proof fn lemma_enc_rec_len(r: RecordModel)
    ensures
        spec_enc_rec(r).len() >= 9,
{
    lemma_auto_spec_u64_to_from_le_bytes();
}

/// Appending one record appends exactly its encoding.
pub proof fn lemma_enc_recs_push(rs: Seq<RecordModel>, r: RecordModel)
    ensures
        spec_enc_recs(rs.push(r)) == spec_enc_recs(rs) + spec_enc_rec(r),
{
    assert(rs.push(r).drop_last() =~= rs);
    assert(rs.push(r).last() == r);
}

/// The encoding of a record sequence splits at any record boundary.
pub proof fn lemma_enc_recs_split(rs: Seq<RecordModel>, i: int)
    requires
        0 <= i <= rs.len(),
    ensures
        spec_enc_recs(rs) == spec_enc_recs(rs.take(i)) + spec_enc_recs(rs.skip(i)),
    decreases rs.len(),
{
    if i == rs.len() {
        assert(rs.take(i) =~= rs);
        assert(rs.skip(i) =~= Seq::<RecordModel>::empty());
        assert(spec_enc_recs(rs) =~= spec_enc_recs(rs.take(i)) + spec_enc_recs(rs.skip(i)));
    } else {
        let dl = rs.drop_last();
        lemma_enc_recs_split(dl, i);
        assert(dl.take(i) =~= rs.take(i));
        assert(dl.skip(i).push(rs.last()) =~= rs.skip(i));
        lemma_enc_recs_push(dl.skip(i), rs.last());
        assert(spec_enc_recs(rs) =~= spec_enc_recs(rs.take(i)) + spec_enc_recs(rs.skip(i)));
    }
}

/// The byte offset of record `i` inside the encoding of `rs`.
pub open spec fn rec_offset(rs: Seq<RecordModel>, i: int) -> int {
    spec_enc_recs(rs.take(i)).len() as int
}

/// One step of the encoding: taking one more record appends its encoding.
pub proof fn lemma_enc_recs_take_succ(rs: Seq<RecordModel>, i: int)
    requires
        0 <= i < rs.len(),
    ensures
        spec_enc_recs(rs.take(i + 1)) == spec_enc_recs(rs.take(i)) + spec_enc_rec(rs[i]),
{
    assert(rs.take(i + 1).drop_last() =~= rs.take(i));
    assert(rs.take(i + 1).last() == rs[i]);
}

/// Record `i` of `rs` sits in the encoding exactly between its offset and
/// the next record's offset.
pub proof fn lemma_enc_recs_at(rs: Seq<RecordModel>, i: int)
    requires
        0 <= i < rs.len(),
    ensures
        rec_offset(rs, i) + spec_enc_rec(rs[i]).len() == rec_offset(rs, i + 1),
        rec_offset(rs, i + 1) <= spec_enc_recs(rs).len(),
        spec_enc_recs(rs).subrange(rec_offset(rs, i), rec_offset(rs, i + 1)) == spec_enc_rec(
            rs[i],
        ),
{
    lemma_enc_recs_take_succ(rs, i);
    lemma_enc_recs_split(rs, i + 1);
    assert(spec_enc_recs(rs).subrange(rec_offset(rs, i), rec_offset(rs, i + 1)) =~= spec_enc_rec(
        rs[i],
    ));
}

/// The offset after the last record is the whole encoding's length.
pub proof fn lemma_rec_offset_end(rs: Seq<RecordModel>)
    ensures
        rec_offset(rs, rs.len() as int) == spec_enc_recs(rs).len(),
{
    assert(rs.take(rs.len() as int) =~= rs);
}

/// Every record costs at least nine bytes in the encoding.
pub proof fn lemma_enc_recs_len_ge(rs: Seq<RecordModel>)
    ensures
        spec_enc_recs(rs).len() >= 9 * rs.len(),
    decreases rs.len(),
{
    if rs.len() == 0 {
    } else {
        lemma_enc_recs_len_ge(rs.drop_last());
        lemma_enc_rec_len(rs.last());
    }
}

/// Extending a byte sequence does not move what is already written.
pub proof fn lemma_subrange_of_extend(a: Seq<u8>, b: Seq<u8>, s: int, e: int)
    requires
        0 <= s <= e <= a.len(),
    ensures
        (a + b).subrange(s, e) == a.subrange(s, e),
{
    assert((a + b).subrange(s, e) =~= a.subrange(s, e));
}

/// What an extension appends sits exactly at the end of the result.
pub proof fn lemma_suffix_of_extend(a: Seq<u8>, b: Seq<u8>)
    ensures
        (a + b).subrange(a.len() as int, (a.len() + b.len()) as int) == b,
{
    assert((a + b).subrange(a.len() as int, (a.len() + b.len()) as int) =~= b);
}

/// A record whose whole encoding fits in addressable memory has strings
/// whose lengths fit the eight-byte framing.
pub proof fn lemma_fits_of_enc_len(r: RecordModel)
    requires
        spec_enc_rec(r).len() <= u64::MAX,
    ensures
        rec_fits(r),
{
    lemma_auto_spec_u64_to_from_le_bytes();
}

/// Two fitting record sequences whose encodings agree, agree record by
/// record from `k` on.
proof fn lemma_take_agree(rs1: Seq<RecordModel>, rs2: Seq<RecordModel>, k: int)
    requires
        spec_enc_recs(rs1) == spec_enc_recs(rs2),
        all_fit(rs1),
        all_fit(rs2),
        0 <= k <= rs1.len(),
        k <= rs2.len(),
        rs1.take(k) == rs2.take(k),
    ensures
        rs1 == rs2,
    decreases rs1.len() - k,
{
    let b = spec_enc_recs(rs1);
    if k < rs1.len() && k < rs2.len() {
        lemma_enc_recs_at(rs1, k);
        lemma_enc_recs_at(rs2, k);
        lemma_dec_of_enc_rec(b, rec_offset(rs1, k), rs1[k]);
        lemma_dec_of_enc_rec(b, rec_offset(rs2, k), rs2[k]);
        assert(rs1.take(k + 1) =~= rs1.take(k).push(rs1[k]));
        assert(rs2.take(k + 1) =~= rs2.take(k).push(rs2[k]));
        lemma_take_agree(rs1, rs2, k + 1);
    } else if k == rs1.len() && k < rs2.len() {
        assert(rs1.take(k) =~= rs1);
        lemma_rec_offset_end(rs1);
        lemma_enc_recs_at(rs2, k);
        lemma_enc_rec_len(rs2[k]);
        assert(false);
    } else if k == rs2.len() && k < rs1.len() {
        assert(rs2.take(k) =~= rs2);
        lemma_rec_offset_end(rs2);
        lemma_enc_recs_at(rs1, k);
        lemma_enc_rec_len(rs1[k]);
        assert(false);
    } else {
        assert(rs1.take(k) =~= rs1);
        assert(rs2.take(k) =~= rs2);
    }
}

/// The log's bytes determine its records: the encoding is injective, so a
/// log replays to one record sequence only.
pub proof fn lemma_log_determines_records(rs1: Seq<RecordModel>, rs2: Seq<RecordModel>)
    requires
        spec_enc_recs(rs1) == spec_enc_recs(rs2),
        all_fit(rs1),
        all_fit(rs2),
    ensures
        rs1 == rs2,
{
    assert(rs1.take(0) =~= rs2.take(0));
    lemma_take_agree(rs1, rs2, 0);
}

} // verus!
