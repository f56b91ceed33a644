//! A flat file of fixed-width records: the shape shared by the
//! write-ahead log and the on-disk ordered store.
//!
//! The file is a sequence of records of `key_size + value_size` bytes
//! each — no header, no framing beyond the fixed stride — so its length
//! must always be a multiple of the record width.  This type holds the
//! file's *contents*; the host application moves the bytes to and from
//! disk and is responsible for making each append durable before acting
//! on it.
use vstd::prelude::*;

use crate::codec::{
    copy_range, dec_record, decode_record, enc_record, encode_record, lemma_record_round_trip,
};
use crate::datum::{kind_of, DatumKind, Record, RecordModel};
use crate::KvError;

verus! {

/// The bytes parse as whole records of the given kinds and widths.
pub open spec fn valid_log(
    data: Seq<u8>,
    kk: DatumKind,
    vk: DatumKind,
    ks: nat,
    vs: nat,
) -> bool {
    let w = (ks + vs) as int;
    &&& data.len() % (ks + vs) == 0
    &&& forall|i: int|
        0 <= i < data.len() / (ks + vs) ==> dec_record(
            kk,
            vk,
            ks,
            vs,
            #[trigger] data.subrange(i * w, (i + 1) * w),
        ) is Some
}

/// The records a valid byte string holds, in file order.
pub open spec fn records_spec(
    data: Seq<u8>,
    kk: DatumKind,
    vk: DatumKind,
    ks: nat,
    vs: nat,
) -> Seq<RecordModel> {
    let w = (ks + vs) as int;
    Seq::new(
        data.len() / (ks + vs),
        |i: int| dec_record(kk, vk, ks, vs, data.subrange(i * w, (i + 1) * w)).unwrap(),
    )
}

/// The `i`-th record's byte region lies inside the file.
proof fn lemma_chunk_in_range(len: int, w: int, i: int)
    requires
        w >= 1,
        len >= 0,
        len % w == 0,
        0 <= i < len / w,
    ensures
        0 <= i * w,
        i * w + w <= len,
        (i + 1) * w == i * w + w,
{
    let q = len / w;
    vstd::arithmetic::div_mod::lemma_fundamental_div_mod(len, w);
    assert(len == w * q);
    assert(i * w >= 0) by (nonlinear_arith)
        requires
            i >= 0,
            w >= 1,
    ;
    assert(i * w + w <= w * q) by (nonlinear_arith)
        requires
            i < q,
            w >= 1,
    ;
    assert((i + 1) * w == i * w + w) by (nonlinear_arith);
}

/// A record file's contents.
pub struct RecordFile {
    /// The file's bytes, exactly as they stand on disk.
    pub data: Vec<u8>,
    /// Whether the file had zero length at open time; appends never
    /// change it.
    pub was_new: bool,
    pub key_size: usize,
    pub value_size: usize,
    pub key_kind: DatumKind,
    pub value_kind: DatumKind,
}

impl RecordFile {
    pub open spec fn wf(self) -> bool {
        &&& 1 <= self.key_size
        &&& 1 <= self.value_size
        &&& self.key_size + self.value_size <= usize::MAX
        &&& valid_log(
            self.data@,
            self.key_kind,
            self.value_kind,
            self.key_size as nat,
            self.value_size as nat,
        )
    }

    /// The records the file holds, in file order.
    pub open spec fn records(self) -> Seq<RecordModel> {
        records_spec(
            self.data@,
            self.key_kind,
            self.value_kind,
            self.key_size as nat,
            self.value_size as nat,
        )
    }

    /// Attaches to a file's contents, or creates a fresh empty one when
    /// handed an empty byte vector.
    ///
    /// Returns `Corruption` exactly when the length is not a multiple of
    /// the record width or some record's bytes do not decode — as when
    /// an existing file is reopened with different widths.
    pub fn open(
        data: Vec<u8>,
        key_size: usize,
        value_size: usize,
        key_kind: DatumKind,
        value_kind: DatumKind,
    ) -> (r: Result<RecordFile, KvError>)
        requires
            1 <= key_size,
            1 <= value_size,
            key_size + value_size <= usize::MAX,
        ensures
            match r {
                Ok(f) => {
                    &&& valid_log(data@, key_kind, value_kind, key_size as nat, value_size as nat)
                    &&& f.wf()
                    &&& f.data@ == data@
                    &&& f.was_new == (data@.len() == 0)
                    &&& f.key_size == key_size
                    &&& f.value_size == value_size
                    &&& f.key_kind == key_kind
                    &&& f.value_kind == value_kind
                },
                Err(e) => {
                    &&& e == KvError::Corruption
                    &&& !valid_log(data@, key_kind, value_kind, key_size as nat, value_size as nat)
                },
            },
    {
        let w = key_size + value_size;
        let was_new = data.len() == 0;
        if data.len() % w != 0 {
            return Err(KvError::Corruption);
        }
        let total = data.len() / w;
        let mut i: usize = 0;
        while i < total
            invariant
                1 <= key_size,
                1 <= value_size,
                w == key_size + value_size,
                data@.len() <= usize::MAX,
                data@.len() % (key_size + value_size) as nat == 0,
                total == data@.len() / (key_size + value_size) as nat,
                i <= total,
                forall|j: int|
                    0 <= j < i ==> dec_record(
                        key_kind,
                        value_kind,
                        key_size as nat,
                        value_size as nat,
                        #[trigger] data@.subrange(j * (w as int), (j + 1) * (w as int)),
                    ) is Some,
            decreases total - i,
        {
            proof {
                lemma_chunk_in_range(data@.len() as int, w as int, i as int);
            }
            let chunk = copy_range(&data, i * w, w);
            match decode_record(&chunk, key_kind, value_kind, key_size, value_size) {
                Ok(_) => {},
                Err(_) => {
                    return Err(KvError::Corruption);
                },
            }
            i = i + 1;
        }
        Ok(RecordFile { data, was_new, key_size, value_size, key_kind, value_kind })
    }

    /// How many whole records the file holds.
    pub fn count(&self) -> (r: usize)
        requires
            self.wf(),
        ensures
            r == self.records().len(),
    {
        self.data.len() / (self.key_size + self.value_size)
    }

    /// True iff the file had zero length at open time: a freshly
    /// created file keeps reporting true even once records have been
    /// appended to it.
    pub fn is_new(&self) -> (r: bool)
        ensures
            r == self.was_new,
    {
        self.was_new
    }

    /// Appends one record at the end of the file.
    ///
    /// Returns `Encoding` exactly when the record does not match the
    /// file's kinds or does not fit its widths; the file is then left in
    /// its prior state — no partial record is ever visible.
    pub fn append_record(&mut self, rec: &Record) -> (r: Result<(), KvError>)
        requires
            old(self).wf(),
        ensures
            final(self).key_size == old(self).key_size,
            final(self).value_size == old(self).value_size,
            final(self).key_kind == old(self).key_kind,
            final(self).value_kind == old(self).value_kind,
            final(self).was_new == old(self).was_new,
            final(self).wf(),
            match r {
                Ok(()) => {
                    &&& kind_of(rec@.key) == old(self).key_kind
                    &&& kind_of(rec@.value) == old(self).value_kind
                    &&& enc_record(
                        rec@,
                        old(self).key_size as nat,
                        old(self).value_size as nat,
                    ) is Some
                    &&& final(self).data@ == old(self).data@ + enc_record(
                        rec@,
                        old(self).key_size as nat,
                        old(self).value_size as nat,
                    ).unwrap()
                    &&& final(self).records() == old(self).records().push(rec@)
                },
                Err(e) => {
                    &&& e == KvError::Encoding
                    &&& !(kind_of(rec@.key) == old(self).key_kind && kind_of(rec@.value)
                        == old(self).value_kind && enc_record(
                        rec@,
                        old(self).key_size as nat,
                        old(self).value_size as nat,
                    ) is Some)
                    &&& final(self).data@ == old(self).data@
                },
            },
    {
        if !(rec.key.kind() == self.key_kind && rec.value.kind() == self.value_kind) {
            return Err(KvError::Encoding);
        }
        let chunk = match encode_record(rec, self.key_size, self.value_size) {
            Ok(c) => c,
            Err(e) => {
                return Err(e);
            },
        };
        let ghost old_data = self.data@;
        let ghost ks = self.key_size as nat;
        let ghost vs = self.value_size as nat;
        let ghost w = (ks + vs) as int;
        let ghost q = old_data.len() / (ks + vs);
        let mut i: usize = 0;
        while i < chunk.len()
            invariant
                i <= chunk.len(),
                self.data@ == old_data + chunk@.take(i as int),
                self.key_size == old(self).key_size,
                self.value_size == old(self).value_size,
                self.key_kind == old(self).key_kind,
                self.value_kind == old(self).value_kind,
                self.was_new == old(self).was_new,
            decreases chunk.len() - i,
        {
            let b = chunk[i];
            self.data.push(b);
            proof {
                assert(old_data + chunk@.take(i + 1) =~= (old_data + chunk@.take(i as int)).push(
                    chunk@[i as int],
                ));
            }
            i = i + 1;
        }
        proof {
            assert(old_data + chunk@.take(chunk@.len() as int) =~= old_data + chunk@);
            let new_data = old_data + chunk@;
            let kk = self.key_kind;
            let vk = self.value_kind;
            lemma_record_round_trip(rec@, ks, vs);
            assert(chunk@.len() == w);
            vstd::arithmetic::div_mod::lemma_fundamental_div_mod(old_data.len() as int, w);
            assert(old_data.len() == w * q);
            assert((q as int + 1) * w == w * (q as int) + w) by (nonlinear_arith);
            assert(new_data.len() as int == (q as int + 1) * w + 0);
            vstd::arithmetic::div_mod::lemma_fundamental_div_mod_converse(
                new_data.len() as int,
                w,
                q as int + 1,
                0,
            );
            assert(new_data.len() / (ks + vs) == q + 1);
            assert(new_data.len() % (ks + vs) == 0);
            assert forall|j: int| 0 <= j < q + 1 implies dec_record(
                kk,
                vk,
                ks,
                vs,
                #[trigger] new_data.subrange(j * w, (j + 1) * w),
            ) is Some by {
                if j < q {
                    lemma_chunk_in_range(old_data.len() as int, w, j);
                    assert(new_data.subrange(j * w, (j + 1) * w) =~= old_data.subrange(
                        j * w,
                        (j + 1) * w,
                    ));
                } else {
                    assert(j * w == old_data.len()) by (nonlinear_arith)
                        requires
                            j == q,
                            old_data.len() == w * q,
                    ;
                    assert((j + 1) * w == j * w + w) by (nonlinear_arith);
                    assert(new_data.subrange(j * w, (j + 1) * w) =~= chunk@);
                }
            }
            let old_recs = records_spec(old_data, kk, vk, ks, vs);
            let new_recs = records_spec(new_data, kk, vk, ks, vs);
            assert(new_recs =~= old_recs.push(rec@)) by {
                assert(new_recs.len() == q + 1);
                assert forall|j: int| 0 <= j < q + 1 implies new_recs[j] == old_recs.push(rec@)[j] by {
                    if j < q {
                        lemma_chunk_in_range(old_data.len() as int, w, j);
                        assert(new_data.subrange(j * w, (j + 1) * w) =~= old_data.subrange(
                            j * w,
                            (j + 1) * w,
                        ));
                    } else {
                        assert(j * w == old_data.len()) by (nonlinear_arith)
                            requires
                                j == q,
                                old_data.len() == w * q,
                        ;
                        assert((j + 1) * w == j * w + w) by (nonlinear_arith);
                        assert(new_data.subrange(j * w, (j + 1) * w) =~= chunk@);
                    }
                }
            }
        }
        Ok(())
    }

    /// Every record in file order: the replay of a write-ahead log, or
    /// the ordered traversal of the store.
    pub fn entries(&self) -> (r: Vec<Record>)
        requires
            self.wf(),
        ensures
            r@.map_values(|x: Record| x@) == self.records(),
    {
        let w = self.key_size + self.value_size;
        let total = self.count();
        let dlen = self.data.len();
        let mut out: Vec<Record> = Vec::new();
        let mut i: usize = 0;
        proof {
            assert(out@.map_values(|x: Record| x@) =~= self.records().take(0));
            assert(self.data@.len() == dlen);
        }
        while i < total
            invariant
                self.wf(),
                w == self.key_size + self.value_size,
                self.data@.len() <= usize::MAX,
                total == self.records().len(),
                i <= total,
                out@.map_values(|x: Record| x@) == self.records().take(i as int),
            decreases total - i,
        {
            let ghost outm = out@.map_values(|x: Record| x@);
            proof {
                lemma_chunk_in_range(self.data@.len() as int, w as int, i as int);
            }
            let chunk = copy_range(&self.data, i * w, w);
            let rec = match decode_record(
                &chunk,
                self.key_kind,
                self.value_kind,
                self.key_size,
                self.value_size,
            ) {
                Ok(rec) => rec,
                Err(_) => {
                    proof {
                        assert(false);
                    }
                    return out;
                },
            };
            out.push(rec);
            proof {
                assert(out@.map_values(|x: Record| x@) =~= outm.push(self.records()[i as int]));
                assert(self.records().take(i + 1) =~= self.records().take(i as int).push(
                    self.records()[i as int],
                ));
            }
            i = i + 1;
        }
        proof {
            assert(self.records().take(self.records().len() as int) =~= self.records());
        }
        out
    }
}

} // verus!
