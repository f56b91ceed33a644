//! The engine: one write-ahead log, one in-memory index, one on-disk
//! ordered store, addressed by a shared base path.
//!
//! `new` replays the log into the index; `insert` appends to the log and
//! then to the index, and triggers a compaction once the index has
//! observed more than `MAX_MEMORY_ITEMS` inserts; `get` answers from the
//! index alone.  Compaction merges the index's sorted stream with the
//! store's sorted stream into a fresh store held in `new_file`, and
//! deliberately leaves the log, the index and the old store untouched:
//! it consolidates the disk representation without relieving memory, so
//! lookups after a compaction still see everything that was merged.
//!
//! The engine works on file *contents*: the host application reads the
//! bytes of `path + ".wal"` and `path` before calling `new`, makes every
//! appended log byte durable before acting on an insert's result, and
//! writes `new_file`'s bytes to `path + ".new"` after a compaction.
use vstd::prelude::*;

use crate::datum::{kind_of, Datum, DatumKind, DatumModel, Record, RecordModel};
use crate::merge::{merge_recs, merge_records};
use crate::multi_map::{values_of, MultiMap};
use crate::record_file::{records_spec, valid_log, RecordFile};
use crate::KvError;

verus! {

/// The index size past which an insert triggers a compaction.
pub const MAX_MEMORY_ITEMS: usize = 1000;

/// This struct holds all the pieces of the engine.
pub struct BTree {
    /// The base path: the store's own file; the log lives beside it.
    pub tree_file_path: String,
    /// The size of the key region in bytes.
    pub key_size: usize,
    /// The size of the value region in bytes.
    pub value_size: usize,
    pub key_kind: DatumKind,
    pub value_kind: DatumKind,
    /// Write-ahead log for in-memory items.
    pub wal_file: RecordFile,
    /// In-memory index that gets merged with the on-disk store.
    pub mem_tree: MultiMap,
    /// The on-disk store backing the whole thing.
    pub tree_file: RecordFile,
    /// The consolidated store the last compaction built, if any.
    pub new_file: Option<RecordFile>,
}

impl BTree {
    /// One record file carries this engine's widths and kinds.
    pub open spec fn file_matches(self, f: RecordFile) -> bool {
        &&& f.key_size == self.key_size
        &&& f.value_size == self.value_size
        &&& f.key_kind == self.key_kind
        &&& f.value_kind == self.value_kind
    }

    /// The engine's invariant: both files parse, the index is sorted,
    /// and the index holds exactly the associations of the log — one
    /// observed insert per log record.
    pub open spec fn wf(self) -> bool {
        &&& 1 <= self.key_size
        &&& 1 <= self.value_size
        &&& self.key_size + self.value_size <= usize::MAX
        &&& self.wal_file.wf()
        &&& self.file_matches(self.wal_file)
        &&& self.tree_file.wf()
        &&& self.file_matches(self.tree_file)
        &&& match self.new_file {
            Some(f) => f.wf() && self.file_matches(f),
            None => true,
        }
        &&& self.mem_tree.wf()
        &&& forall|rv: RecordModel|
            self.mem_tree.contains_pair(rv) <==> self.wal_file.records().contains(rv)
        &&& self.mem_tree.count == self.wal_file.records().len()
    }

    /// Assembles an engine from the contents of its two files, handed in
    /// by the host: `wal_data` from `path + ".wal"`, `tree_data` from
    /// `path` — either empty when the file was just created.  Replays
    /// the log into a fresh in-memory index.
    ///
    /// Returns `Corruption` exactly when either file's bytes do not
    /// parse as whole records of the declared widths and kinds.
    pub fn new(
        tree_file_path: &String,
        key_size: usize,
        value_size: usize,
        key_kind: DatumKind,
        value_kind: DatumKind,
        wal_data: Vec<u8>,
        tree_data: Vec<u8>,
    ) -> (r: Result<BTree, KvError>)
        requires
            1 <= key_size,
            1 <= value_size,
            key_size + value_size <= usize::MAX,
        ensures
            match r {
                Ok(t) => {
                    &&& t.wf()
                    &&& t.tree_file_path == tree_file_path
                    &&& t.key_size == key_size
                    &&& t.value_size == value_size
                    &&& t.key_kind == key_kind
                    &&& t.value_kind == value_kind
                    &&& t.wal_file.data@ == wal_data@
                    &&& t.wal_file.was_new == (wal_data@.len() == 0)
                    &&& t.tree_file.data@ == tree_data@
                    &&& t.tree_file.was_new == (tree_data@.len() == 0)
                    &&& t.new_file is None
                    &&& forall|rv: RecordModel|
                        t.mem_tree.contains_pair(rv) <==> records_spec(
                            wal_data@,
                            key_kind,
                            value_kind,
                            key_size as nat,
                            value_size as nat,
                        ).contains(rv)
                },
                Err(e) => {
                    &&& e == KvError::Corruption
                    &&& !(valid_log(wal_data@, key_kind, value_kind, key_size as nat, value_size as nat)
                        && valid_log(
                        tree_data@,
                        key_kind,
                        value_kind,
                        key_size as nat,
                        value_size as nat,
                    ))
                },
            },
    {
        let mut mem_tree = MultiMap::new();

        let wal_file = match RecordFile::open(wal_data, key_size, value_size, key_kind, value_kind) {
            Ok(f) => f,
            Err(e) => {
                return Err(e);
            },
        };

        // Replay the log into the in-memory index.
        if !wal_file.is_new() {
            let recs = wal_file.entries();
            let ghost walm = wal_file.records();
            let mut i: usize = 0;
            proof {
                assert(walm.take(0) =~= Seq::<RecordModel>::empty());
            }
            while i < recs.len()
                invariant
                    i <= recs.len(),
                    recs@.map_values(|x: Record| x@) == walm,
                    mem_tree.wf(),
                    mem_tree.count == i,
                    forall|rv: RecordModel|
                        mem_tree.contains_pair(rv) <==> walm.take(i as int).contains(rv),
                decreases recs.len() - i,
            {
                let k = recs[i].key.duplicate();
                let v = recs[i].value.duplicate();
                let ghost rv = RecordModel { key: k@, value: v@ };
                proof {
                    assert(walm[i as int] == recs@.map_values(|x: Record| x@)[i as int]);
                }
                mem_tree.insert(k, v);
                proof {
                    let w0 = walm.take(i as int);
                    let w1 = walm.take(i + 1);
                    assert(w1 =~= w0.push(rv));
                    assert forall|x: RecordModel| mem_tree.contains_pair(x) <==> w1.contains(
                        x,
                    ) by {
                        if w1.contains(x) {
                            let j = choose|j: int| 0 <= j < w1.len() && w1[j] == x;
                            if j < i {
                                assert(w0[j] == x);
                            }
                        }
                        if w0.contains(x) {
                            let j = choose|j: int| 0 <= j < w0.len() && w0[j] == x;
                            assert(w1[j] == x);
                        }
                        if x == rv {
                            assert(w1[i as int] == x);
                        }
                    }
                }
                i = i + 1;
            }
            proof {
                assert(walm.take(walm.len() as int) =~= walm);
            }
        } else {
            proof {
                assert(wal_file.records().len() == 0);
                assert forall|rv: RecordModel| !wal_file.records().contains(rv) by {}
            }
        }

        let tree_file = match RecordFile::open(tree_data, key_size, value_size, key_kind, value_kind)
            {
            Ok(f) => f,
            Err(e) => {
                return Err(e);
            },
        };

        Ok(
            BTree {
                tree_file_path: tree_file_path.clone(),
                key_size,
                value_size,
                key_kind,
                value_kind,
                wal_file,
                mem_tree,
                tree_file,
                new_file: None,
            },
        )
    }

    /// Inserts a key-value pair.
    ///
    /// The pair is appended to the write-ahead log first — if that fails
    /// the index is left unchanged, so no association is ever visible in
    /// memory before it is durable — then added to the index.  When the
    /// index has now observed more than `MAX_MEMORY_ITEMS` inserts, a
    /// compaction runs before returning.
    ///
    /// Returns `Encoding` exactly when the pair does not match the
    /// engine's kinds or does not fit its widths; the engine is then
    /// unchanged.
    pub fn insert(&mut self, key: Datum, value: Datum) -> (r: Result<(), KvError>)
        requires
            old(self).wf(),
        ensures
            final(self).wf(),
            final(self).tree_file_path == old(self).tree_file_path,
            final(self).key_size == old(self).key_size,
            final(self).value_size == old(self).value_size,
            final(self).key_kind == old(self).key_kind,
            final(self).value_kind == old(self).value_kind,
            final(self).tree_file == old(self).tree_file,
            match r {
                Ok(()) => {
                    &&& kind_of(key@) == old(self).key_kind
                    &&& kind_of(value@) == old(self).value_kind
                    &&& crate::codec::enc_record(
                        RecordModel { key: key@, value: value@ },
                        old(self).key_size as nat,
                        old(self).value_size as nat,
                    ) is Some
                    &&& final(self).wal_file.data@ == old(self).wal_file.data@
                        + crate::codec::enc_record(
                        RecordModel { key: key@, value: value@ },
                        old(self).key_size as nat,
                        old(self).value_size as nat,
                    ).unwrap()
                    &&& final(self).mem_tree.count == old(self).mem_tree.count + 1
                    &&& forall|x: RecordModel|
                        final(self).mem_tree.contains_pair(x) <==> old(self).mem_tree.contains_pair(
                            x,
                        ) || x == (RecordModel { key: key@, value: value@ })
                    &&& if old(self).mem_tree.count + 1 > MAX_MEMORY_ITEMS {
                        final(self).new_file matches Some(f) && f.records() == merge_recs(
                            final(self).mem_tree.model(),
                            old(self).tree_file.records(),
                        )
                    } else {
                        final(self).new_file == old(self).new_file
                    }
                },
                Err(e) => {
                    &&& e == KvError::Encoding
                    &&& !(kind_of(key@) == old(self).key_kind && kind_of(value@) == old(
                        self,
                    ).value_kind && crate::codec::enc_record(
                        RecordModel { key: key@, value: value@ },
                        old(self).key_size as nat,
                        old(self).value_size as nat,
                    ) is Some)
                    &&& final(self).wal_file.data@ == old(self).wal_file.data@
                    &&& final(self).mem_tree == old(self).mem_tree
                    &&& final(self).new_file == old(self).new_file
                },
            },
    {
        let record = Record { key, value };

        match self.wal_file.append_record(&record) {
            Ok(()) => {},
            Err(e) => {
                return Err(e);
            },
        }

        let Record { key, value } = record;

        let wal_len = self.wal_file.data.len();
        proof {
            // The log grew by one record, so the index may count one more.
            assert(self.wal_file.data@.len() == wal_len);
            lemma_record_count_small(wal_len as int, (self.key_size + self.value_size) as int);
            assert(old(self).mem_tree.count < usize::MAX);
        }
        let size = self.mem_tree.insert(key, value);

        proof {
            let walm = self.wal_file.records();
            let old_walm = old(self).wal_file.records();
            let rv = RecordModel { key: key@, value: value@ };
            assert forall|x: RecordModel|
                self.mem_tree.contains_pair(x) <==> walm.contains(x) by {
                if walm.contains(x) {
                    let j = choose|j: int| 0 <= j < walm.len() && walm[j] == x;
                    if j < old_walm.len() {
                        assert(old_walm[j] == x);
                    } else {
                        assert(x == rv);
                    }
                }
                if old_walm.contains(x) {
                    let j = choose|j: int| 0 <= j < old_walm.len() && old_walm[j] == x;
                    assert(walm[j] == x);
                }
                if x == rv {
                    assert(walm[old_walm.len() as int] == x);
                }
            }
            assert(self.wf());
        }

        if size > MAX_MEMORY_ITEMS {
            match self.compact() {
                Ok(()) => {},
                Err(e) => {
                    proof {
                        assert(false);
                    }
                    return Err(e);
                },
            }
        }

        Ok(())
    }

    /// All values stored under `key`, ascending, or `None` if the key
    /// was never inserted.  Lookups consult the in-memory index only.
    pub fn get(&self, key: &Datum) -> (r: Option<Vec<Datum>>)
        requires
            self.wf(),
        ensures
            match r {
                Some(vs) => self.mem_tree.has_key(key@) && vs@.map_values(|d: Datum| d@)
                    == values_of(self.mem_tree.model(), key@),
                None => !self.mem_tree.has_key(key@),
            },
    {
        self.mem_tree.get(key)
    }

    /// Merges the records on disk with the records in memory.
    ///
    /// Builds a fresh consolidated store — the in-memory stream as the
    /// left merge input, so its copy precedes the store's on full ties —
    /// and leaves the log, the index and the old store untouched:
    /// lookups for anything merged here still succeed afterwards.
    pub fn compact(&mut self) -> (r: Result<(), KvError>)
        requires
            old(self).wf(),
        ensures
            r is Ok,
            final(self).wf(),
            final(self).tree_file_path == old(self).tree_file_path,
            final(self).key_size == old(self).key_size,
            final(self).value_size == old(self).value_size,
            final(self).key_kind == old(self).key_kind,
            final(self).value_kind == old(self).value_kind,
            final(self).wal_file == old(self).wal_file,
            final(self).mem_tree == old(self).mem_tree,
            final(self).tree_file == old(self).tree_file,
            final(self).new_file matches Some(f) && f.records() == merge_recs(
                old(self).mem_tree.model(),
                old(self).tree_file.records(),
            ),
            forall|k: DatumModel|
                values_of(final(self).mem_tree.model(), k) == values_of(
                    old(self).mem_tree.model(),
                    k,
                ),
    {
        let ghost ks = self.key_size as nat;
        let ghost vs = self.value_size as nat;
        let ghost kk = self.key_kind;
        let ghost vk = self.value_kind;

        // The two sorted input streams.
        let mem_entries = self.mem_tree.entries();
        let disk_entries = self.tree_file.entries();
        let ghost am = self.mem_tree.model();
        let ghost bm = self.tree_file.records();
        let merged = merge_records(&mem_entries, &disk_entries);
        let ghost target = merge_recs(am, bm);

        proof {
            broadcast use vstd::seq_lib::group_to_multiset_ensures;
            broadcast use vstd::multiset::group_multiset_axioms;

            crate::merge::lemma_merge_multiset(am, bm);
            // Every merged record came from the log or the store, so it
            // re-encodes within the same widths and kinds.
            assert forall|j: int| 0 <= j < target.len() implies crate::codec::enc_record(
                #[trigger] target[j],
                ks,
                vs,
            ) is Some && kind_of(target[j].key) == kk && kind_of(target[j].value) == vk by {
                assert(target.contains(target[j]));
                assert(target.to_multiset().count(target[j]) > 0);
                if am.to_multiset().count(target[j]) > 0 {
                    assert(am.contains(target[j]));
                    assert(self.mem_tree.contains_pair(target[j]));
                    assert(self.wal_file.records().contains(target[j]));
                    let w = (ks + vs) as int;
                    let i = choose|i: int|
                        0 <= i < self.wal_file.records().len() && self.wal_file.records()[i]
                            == target[j];
                    crate::codec::lemma_decoded_record_encodable(
                        kk,
                        vk,
                        ks,
                        vs,
                        self.wal_file.data@.subrange(i * w, (i + 1) * w),
                    );
                } else {
                    assert(bm.to_multiset().count(target[j]) > 0);
                    assert(bm.contains(target[j]));
                    let w = (ks + vs) as int;
                    let i = choose|i: int| 0 <= i < bm.len() && bm[i] == target[j];
                    crate::codec::lemma_decoded_record_encodable(
                        kk,
                        vk,
                        ks,
                        vs,
                        self.tree_file.data@.subrange(i * w, (i + 1) * w),
                    );
                }
            }
        }

        // A fresh, empty on-disk store for the consolidated records.
        let empty: Vec<u8> = Vec::new();
        proof {
            assert(empty@.len() == 0);
            assert(valid_log(empty@, kk, vk, ks, vs));
        }
        let mut new_tree_file = match RecordFile::open(
            empty,
            self.key_size,
            self.value_size,
            self.key_kind,
            self.value_kind,
        ) {
            Ok(f) => f,
            Err(_) => {
                proof {
                    assert(false);
                }
                return Err(KvError::Compaction);
            },
        };

        proof {
            assert(new_tree_file.records() =~= target.take(0));
        }
        let mut i: usize = 0;
        while i < merged.len()
            invariant
                i <= merged.len(),
                merged@.map_values(|x: Record| x@) == target,
                forall|j: int|
                    0 <= j < target.len() ==> crate::codec::enc_record(#[trigger] target[j], ks, vs)
                        is Some && kind_of(target[j].key) == kk && kind_of(target[j].value) == vk,
                ks == self.key_size as nat,
                vs == self.value_size as nat,
                kk == self.key_kind,
                vk == self.value_kind,
                new_tree_file.wf(),
                new_tree_file.key_size == self.key_size,
                new_tree_file.value_size == self.value_size,
                new_tree_file.key_kind == self.key_kind,
                new_tree_file.value_kind == self.value_kind,
                new_tree_file.records() == target.take(i as int),
                self == old(self),
            decreases merged.len() - i,
        {
            proof {
                assert(merged@.map_values(|x: Record| x@)[i as int] == target[i as int]);
            }
            match new_tree_file.append_record(&merged[i]) {
                Ok(()) => {},
                Err(_) => {
                    proof {
                        assert(false);
                    }
                    return Err(KvError::Compaction);
                },
            }
            proof {
                assert(target.take(i + 1) =~= target.take(i as int).push(target[i as int]));
            }
            i = i + 1;
        }
        proof {
            assert(target.take(merged@.len() as int) =~= target);
        }

        self.new_file = Some(new_tree_file);
        Ok(())
    }
}

/// Merge ordering: as long as the on-disk store is in non-decreasing
/// record order — as every store a compaction built is — the stream a
/// compaction writes is in non-decreasing order too, since the index's
/// stream is strictly ascending by its invariant.
pub proof fn lemma_compaction_ordered(t: BTree)
    requires
        t.wf(),
        crate::datum::sorted_le(t.tree_file.records()),
    ensures
        crate::datum::sorted_le(merge_recs(t.mem_tree.model(), t.tree_file.records())),
{
    crate::datum::lemma_sorted_strict_implies_le(t.mem_tree.model());
    crate::merge::lemma_merge_sorted(t.mem_tree.model(), t.tree_file.records());
}

/// Replay completeness: whatever engine state a sequence of inserts has
/// produced, the in-memory index holds exactly the associations of the
/// write-ahead log's records — so rebuilding the index purely from the
/// log, as `new` does after a close and reopen, recovers every
/// association without consulting the on-disk store.
pub proof fn lemma_replay_completeness(t: BTree)
    requires
        t.wf(),
    ensures
        forall|rv: RecordModel|
            t.mem_tree.contains_pair(rv) <==> records_spec(
                t.wal_file.data@,
                t.key_kind,
                t.value_kind,
                t.key_size as nat,
                t.value_size as nat,
            ).contains(rv),
{
}

/// A record file's count of whole records leaves room to count one more
/// insert: each record is at least two bytes wide.
proof fn lemma_record_count_small(len: int, w: int)
    requires
        w >= 2,
        0 <= len <= usize::MAX,
        len % w == 0,
    ensures
        len / w < usize::MAX,
{
    let q = len / w;
    vstd::arithmetic::div_mod::lemma_fundamental_div_mod(len, w);
    vstd::arithmetic::div_mod::lemma_div_pos_is_pos(len, w);
    assert(2 * q <= w * q) by (nonlinear_arith)
        requires
            q >= 0,
            w >= 2,
    ;
}

} // verus!
