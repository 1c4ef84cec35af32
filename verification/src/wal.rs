//! The write-ahead log: an append-only byte sequence holding encoded
//! records, with the running record count and the compaction threshold.

use crate::codec::{
    decode_record_at, encode_record, lemma_dec_of_enc_rec, lemma_enc_rec_len, lemma_enc_recs_at,
    lemma_enc_recs_len_ge, lemma_enc_recs_push, lemma_rec_offset_end, rec_offset,
};
use crate::error::KvsError;
use crate::record::{rec_fits, spec_dec_rec, spec_enc_rec, spec_enc_recs, Record, RecordModel};
use vstd::prelude::*;

verus! {

/// The append-only log, held as the byte sequence the records encode to.
///
/// `records` is the log's mathematical content: the sequence of records whose
/// encodings `data` spells, in order.
pub struct WAL {
    /// The log's bytes.
    pub data: Vec<u8>,
    /// How many records the log holds, counted since the current epoch.
    pub size: usize,
    /// Record count above which the store compacts the log.
    pub threshold: usize,
    /// The records the bytes encode.
    pub records: Ghost<Seq<RecordModel>>,
}

impl WAL {
    /// The log is exactly the encoding of its records, their count is the
    /// size, and every record's strings fit the framing.
    pub open spec fn wf(self) -> bool {
        &&& self.data@ == spec_enc_recs(self.records@)
        &&& self.size == self.records@.len()
        &&& forall|i: int| 0 <= i < self.records@.len() ==> rec_fits(#[trigger] self.records@[i])
    }

    /// An empty log with the default compaction threshold.
    pub fn new() -> (w: WAL)
        ensures
            w.wf(),
            w.records@ == Seq::<RecordModel>::empty(),
            w.data@ == Seq::<u8>::empty(),
            w.size == 0,
            w.threshold == 100,
    {
        WAL { data: Vec::new(), size: 0, threshold: 100, records: Ghost(Seq::empty()) }
    }

    /// Truncates the log to nothing, as the first step of compaction's
    /// rewrite.
    pub fn clear(&mut self)
        ensures
            final(self).wf(),
            final(self).records@ == Seq::<RecordModel>::empty(),
            final(self).data@ == Seq::<u8>::empty(),
            final(self).size == 0,
            final(self).threshold == old(self).threshold,
    {
        self.data = Vec::new();
        self.size = 0;
        self.records = Ghost(Seq::empty());
    }

    /// The log's current length in bytes: the store's write cursor.
    pub fn byte_len(&self) -> (n: usize)
        ensures
            n == self.data@.len(),
    {
        self.data.len()
    }

    /// Serializes one record and appends its bytes, returning how many bytes
    /// were written.
    pub fn append(&mut self, rec: &Record) -> (n: usize)
        requires
            old(self).wf(),
        ensures
            final(self).wf(),
            final(self).records@ == old(self).records@.push(rec@),
            final(self).data@ == old(self).data@ + spec_enc_rec(rec@),
            n == spec_enc_rec(rec@).len(),
            final(self).size == old(self).size + 1,
            final(self).threshold == old(self).threshold,
    {
        let mut enc = encode_record(rec);
        let n = enc.len();
        self.data.append(&mut enc);
        let total = self.data.len();
        proof {
            lemma_enc_recs_push(old(self).records@, rec@);
            lemma_enc_recs_len_ge(old(self).records@);
            lemma_enc_rec_len(rec@);
            assert(9 * old(self).records@.len() <= total);
        }
        self.size = self.size + 1;
        self.records = Ghost(self.records@.push(rec@));
        n
    }

    /// True when the record count has passed the compaction threshold.
    pub fn exceeds(&self) -> (r: bool)
        ensures
            r == (self.size > self.threshold),
    {
        self.size > self.threshold
    }

    /// Reads the one record framed exactly by the byte range
    /// `start .. end`, failing when the range does not hold one whole
    /// record.
    pub fn read_one(&self, start: usize, end: usize) -> (r: Result<Record, KvsError>)
        requires
            start <= end <= self.data@.len(),
        ensures
            r matches Ok(rec) ==> spec_dec_rec(self.data@, start as int) == Some(
                (rec@, end as int),
            ),
            r matches Err(e) ==> e == KvsError::ParseError && (forall|rm: RecordModel|
                spec_dec_rec(self.data@, start as int) != Some((rm, end as int))),
    {
        match decode_record_at(&self.data, start) {
            Some((rec, next)) => {
                if next == end {
                    Ok(rec)
                } else {
                    Err(KvsError::ParseError)
                }
            },
            None => Err(KvsError::ParseError),
        }
    }

    /// Decodes the whole log back into its record sequence, in order.
    pub fn stream(&self) -> (out: Vec<Record>)
        requires
            self.wf(),
        ensures
            out@.len() == self.records@.len(),
            forall|i: int| 0 <= i < out@.len() ==> #[trigger] out@[i]@ == self.records@[i],
    {
        let mut out: Vec<Record> = Vec::new();
        let mut pos: usize = 0;
        loop
            invariant
                self.wf(),
                out@.len() <= self.records@.len(),
                forall|j: int| 0 <= j < out@.len() ==> #[trigger] out@[j]@ == self.records@[j],
                pos == rec_offset(self.records@, out@.len() as int),
                pos <= self.data@.len(),
            ensures
                out@.len() == self.records@.len(),
            decreases self.data@.len() - pos,
        {
            proof {
                let i = out@.len() as int;
                if i < self.records@.len() {
                    lemma_enc_recs_at(self.records@, i);
                    lemma_dec_of_enc_rec(self.data@, pos as int, self.records@[i]);
                } else {
                    lemma_rec_offset_end(self.records@);
                }
            }
            match decode_record_at(&self.data, pos) {
                Some((rec, next)) => {
                    out.push(rec);
                    pos = next;
                },
                None => {
                    break ;
                },
            }
        }
        out
    }
}

} // verus!
