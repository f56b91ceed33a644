//! The compaction merge: a stable two-pointer merge of two sorted record
//! streams.
//!
//! The merged stream is in non-decreasing record order; when a full tie
//! (equal key and equal value) occurs across the two streams, both copies
//! are retained — multiplicities accumulate, nothing is deduplicated —
//! and the left stream's copy is written first.  The engine passes the
//! in-memory index as the left stream, so its copy precedes the on-disk
//! store's on ties.
use vstd::multiset::Multiset;
use vstd::prelude::*;

use crate::datum::{
    lemma_record_le_trans, lemma_record_lt_total, record_le, sorted_le, Record, RecordModel,
};

verus! {

/// The stable two-way merge: at each step the smaller head moves, the
/// left head on ties.
pub open spec fn merge_recs(a: Seq<RecordModel>, b: Seq<RecordModel>) -> Seq<RecordModel>
    decreases a.len() + b.len(),
{
    if a.len() == 0 {
        b
    } else if b.len() == 0 {
        a
    } else if record_le(a[0], b[0]) {
        seq![a[0]] + merge_recs(a.drop_first(), b)
    } else {
        seq![b[0]] + merge_recs(a, b.drop_first())
    }
}

/// The merge loses nothing and invents nothing.
pub proof fn lemma_merge_len(a: Seq<RecordModel>, b: Seq<RecordModel>)
    ensures
        merge_recs(a, b).len() == a.len() + b.len(),
    decreases a.len() + b.len(),
{
    if a.len() == 0 || b.len() == 0 {
    } else if record_le(a[0], b[0]) {
        lemma_merge_len(a.drop_first(), b);
    } else {
        lemma_merge_len(a, b.drop_first());
    }
}

/// Both copies of every tied record are retained: the merged stream holds
/// exactly the records of both inputs, multiplicities added.
pub proof fn lemma_merge_multiset(a: Seq<RecordModel>, b: Seq<RecordModel>)
    ensures
        merge_recs(a, b).to_multiset() =~= a.to_multiset().add(b.to_multiset()),
    decreases a.len() + b.len(),
{
    broadcast use vstd::multiset::group_multiset_axioms;

    if a.len() == 0 {
        a.to_multiset_ensures();
        assert(a.to_multiset() =~= Multiset::<RecordModel>::empty()) by {
            assert(a.to_multiset().len() == 0);
        }
    } else if b.len() == 0 {
        b.to_multiset_ensures();
        assert(b.to_multiset() =~= Multiset::<RecordModel>::empty()) by {
            assert(b.to_multiset().len() == 0);
        }
    } else if record_le(a[0], b[0]) {
        let t = a.drop_first();
        lemma_merge_multiset(t, b);
        vstd::seq_lib::lemma_multiset_commutative(seq![a[0]], merge_recs(t, b));
        vstd::seq_lib::lemma_multiset_commutative(seq![a[0]], t);
        assert(seq![a[0]] + t =~= a);
    } else {
        let u = b.drop_first();
        lemma_merge_multiset(a, u);
        vstd::seq_lib::lemma_multiset_commutative(seq![b[0]], merge_recs(a, u));
        vstd::seq_lib::lemma_multiset_commutative(seq![b[0]], u);
        assert(seq![b[0]] + u =~= b);
    }
}

/// Merging two non-decreasing streams yields a non-decreasing stream.
pub proof fn lemma_merge_sorted(a: Seq<RecordModel>, b: Seq<RecordModel>)
    requires
        sorted_le(a),
        sorted_le(b),
    ensures
        sorted_le(merge_recs(a, b)),
    decreases a.len() + b.len(),
{
    broadcast use vstd::seq_lib::group_to_multiset_ensures;
    broadcast use vstd::multiset::group_multiset_axioms;

    if a.len() == 0 || b.len() == 0 {
    } else {
        lemma_record_lt_total(a[0], b[0]);
        let left_first = record_le(a[0], b[0]);
        let head = if left_first {
            a[0]
        } else {
            b[0]
        };
        let ta = if left_first {
            a.drop_first()
        } else {
            a
        };
        let tb = if left_first {
            b
        } else {
            b.drop_first()
        };
        assert forall|i: int, j: int| 0 <= i < j < ta.len() implies record_le(
            #[trigger] ta[i],
            #[trigger] ta[j],
        ) by {
            if left_first {
                assert(ta[i] == a[i + 1]);
                assert(ta[j] == a[j + 1]);
            }
        }
        assert forall|i: int, j: int| 0 <= i < j < tb.len() implies record_le(
            #[trigger] tb[i],
            #[trigger] tb[j],
        ) by {
            if !left_first {
                assert(tb[i] == b[i + 1]);
                assert(tb[j] == b[j + 1]);
            }
        }
        lemma_merge_sorted(ta, tb);
        let m = merge_recs(ta, tb);
        let r = merge_recs(a, b);
        assert(r == seq![head] + m);
        assert forall|j: int| 0 <= j < m.len() implies record_le(head, #[trigger] m[j]) by {
            lemma_merge_multiset(ta, tb);
            assert(m.contains(m[j]));
            assert(m.to_multiset().count(m[j]) > 0);
            assert(ta.to_multiset().count(m[j]) > 0 || tb.to_multiset().count(m[j]) > 0);
            if ta.to_multiset().count(m[j]) > 0 {
                assert(ta.contains(m[j]));
                let i = choose|i: int| 0 <= i < ta.len() && ta[i] == m[j];
                if left_first {
                    assert(ta[i] == a[i + 1]);
                    assert(record_le(a[0], a[i + 1]));
                } else {
                    // head is b[0], below a[0], which is below every a entry
                    if i > 0 {
                        assert(record_le(a[0], a[i]));
                    }
                    lemma_record_le_trans(head, a[0], ta[i]);
                }
            } else {
                assert(tb.contains(m[j]));
                let i = choose|i: int| 0 <= i < tb.len() && tb[i] == m[j];
                if left_first {
                    // head is a[0], at or below b[0], which is at or below every b entry
                    if i > 0 {
                        assert(record_le(b[0], b[i]));
                    }
                    lemma_record_le_trans(head, b[0], tb[i]);
                } else {
                    assert(tb[i] == b[i + 1]);
                    assert(record_le(b[0], b[i + 1]));
                }
            }
        }
        assert forall|i: int, j: int| 0 <= i < j < r.len() implies record_le(
            #[trigger] r[i],
            #[trigger] r[j],
        ) by {
            assert(r[j] == m[j - 1]);
            if i > 0 {
                assert(r[i] == m[i - 1]);
            }
        }
    }
}

/// The executable merge of two sorted record vectors.
pub fn merge_records(a: &Vec<Record>, b: &Vec<Record>) -> (r: Vec<Record>)
    ensures
        r@.map_values(|x: Record| x@) == merge_recs(
            a@.map_values(|x: Record| x@),
            b@.map_values(|x: Record| x@),
        ),
{
    let ghost am = a@.map_values(|x: Record| x@);
    let ghost bm = b@.map_values(|x: Record| x@);
    let mut out: Vec<Record> = Vec::new();
    let mut i: usize = 0;
    let mut j: usize = 0;
    proof {
        assert(out@.map_values(|x: Record| x@) =~= Seq::<RecordModel>::empty());
        assert(am.skip(0) =~= am);
        assert(bm.skip(0) =~= bm);
        assert(Seq::<RecordModel>::empty() + merge_recs(am, bm) =~= merge_recs(am, bm));
    }
    while i < a.len() || j < b.len()
        invariant
            i <= a.len(),
            j <= b.len(),
            am == a@.map_values(|x: Record| x@),
            bm == b@.map_values(|x: Record| x@),
            merge_recs(am, bm) == out@.map_values(|x: Record| x@) + merge_recs(
                am.skip(i as int),
                bm.skip(j as int),
            ),
        decreases a.len() - i + b.len() - j,
    {
        let ghost outm = out@.map_values(|x: Record| x@);
        let ghost ra = am.skip(i as int);
        let ghost rb = bm.skip(j as int);
        let take_left: bool = if j == b.len() {
            true
        } else if i == a.len() {
            false
        } else {
            a[i].le(&b[j])
        };
        proof {
            if i < a.len() {
                assert(ra[0] == am[i as int]);
                assert(ra.drop_first() =~= am.skip(i + 1));
            }
            if j < b.len() {
                assert(rb[0] == bm[j as int]);
                assert(rb.drop_first() =~= bm.skip(j + 1));
            }
        }
        if take_left {
            let rec = a[i].duplicate();
            out.push(rec);
            proof {
                assert(out@.map_values(|x: Record| x@) =~= outm.push(am[i as int]));
                if j == b.len() {
                    assert(rb.len() == 0);
                    assert(merge_recs(ra, rb) == ra);
                    assert(ra =~= seq![am[i as int]] + am.skip(i + 1));
                    assert(merge_recs(am.skip(i + 1), rb) == am.skip(i + 1));
                } else {
                    assert(merge_recs(ra, rb) == seq![am[i as int]] + merge_recs(
                        am.skip(i + 1),
                        rb,
                    ));
                }
                assert(outm.push(am[i as int]) + merge_recs(am.skip(i + 1), rb) =~= outm + (
                seq![am[i as int]] + merge_recs(am.skip(i + 1), rb)));
            }
            i = i + 1;
        } else {
            let rec = b[j].duplicate();
            out.push(rec);
            proof {
                assert(out@.map_values(|x: Record| x@) =~= outm.push(bm[j as int]));
                if i == a.len() {
                    assert(ra.len() == 0);
                    assert(merge_recs(ra, rb) == rb);
                    assert(rb =~= seq![bm[j as int]] + bm.skip(j + 1));
                    assert(merge_recs(ra, bm.skip(j + 1)) == bm.skip(j + 1));
                } else {
                    assert(merge_recs(ra, rb) == seq![bm[j as int]] + merge_recs(
                        ra,
                        bm.skip(j + 1),
                    ));
                }
                assert(outm.push(bm[j as int]) + merge_recs(ra, bm.skip(j + 1)) =~= outm + (
                seq![bm[j as int]] + merge_recs(ra, bm.skip(j + 1))));
            }
            j = j + 1;
        }
    }
    proof {
        assert(am.skip(am.len() as int) =~= Seq::<RecordModel>::empty());
        assert(bm.skip(bm.len() as int) =~= Seq::<RecordModel>::empty());
        assert(out@.map_values(|x: Record| x@) + Seq::<RecordModel>::empty() =~= out@.map_values(
            |x: Record| x@,
        ));
    }
    out
}

} // verus!
