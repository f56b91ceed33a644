//! The in-memory index: an ordered mapping from key to an ordered,
//! duplicate-free collection of values.
//!
//! The index is kept as one flat vector of key-value pairs in strictly
//! ascending record order, so the per-key value ordering and the whole
//! ascending traversal that compaction consumes are the same invariant.
//! It also keeps a running total of insert operations observed — not of
//! distinct associations — which the engine compares against its
//! compaction threshold.
use vstd::prelude::*;

use crate::datum::{
    datum_lt, lemma_record_lt_total, lemma_record_lt_trans, record_lt, sorted_strict, Datum,
    DatumModel, Record, RecordModel,
};

verus! {

/// The values associated with key `k`, in the order they stand in `s`.
pub open spec fn values_of(s: Seq<RecordModel>, k: DatumModel) -> Seq<DatumModel>
    decreases s.len(),
{
    if s.len() == 0 {
        Seq::empty()
    } else if s[0].key == k {
        seq![s[0].value] + values_of(s.drop_first(), k)
    } else {
        values_of(s.drop_first(), k)
    }
}

/// Some entry of `s` carries key `k`.
pub open spec fn seq_has_key(s: Seq<RecordModel>, k: DatumModel) -> bool {
    exists|i: int| 0 <= i < s.len() && s[i].key == k
}

/// A key has values exactly when it occurs.
pub proof fn lemma_values_of_nonempty(s: Seq<RecordModel>, k: DatumModel)
    ensures
        values_of(s, k).len() > 0 <==> seq_has_key(s, k),
    decreases s.len(),
{
    if s.len() > 0 {
        lemma_values_of_nonempty(s.drop_first(), k);
        if s[0].key == k {
            assert(seq_has_key(s, k));
        } else {
            if seq_has_key(s.drop_first(), k) {
                let j = choose|j: int| 0 <= j < s.drop_first().len() && s.drop_first()[j].key == k;
                assert(s[j + 1].key == k);
            }
            if seq_has_key(s, k) {
                let i = choose|i: int| 0 <= i < s.len() && s[i].key == k;
                assert(s.drop_first()[i - 1].key == k);
            }
        }
    }
}

/// When every value under `k` in `s` is above `v`, so is every entry of
/// `values_of(s, k)`.
proof fn lemma_values_of_above(s: Seq<RecordModel>, k: DatumModel, v: DatumModel)
    requires
        forall|i: int| 0 <= i < s.len() && s[i].key == k ==> datum_lt(v, #[trigger] s[i].value),
    ensures
        forall|j: int| 0 <= j < values_of(s, k).len() ==> datum_lt(v, #[trigger] values_of(s, k)[j]),
    decreases s.len(),
{
    if s.len() > 0 {
        let t = s.drop_first();
        assert forall|i: int| 0 <= i < t.len() && t[i].key == k implies datum_lt(
            v,
            #[trigger] t[i].value,
        ) by {
            assert(t[i] == s[i + 1]);
        }
        lemma_values_of_above(t, k, v);
        let vs = values_of(s, k);
        let vt = values_of(t, k);
        if s[0].key == k {
            assert forall|j: int| 0 <= j < vs.len() implies datum_lt(v, #[trigger] vs[j]) by {
                if j == 0 {
                    assert(vs[0] == s[0].value);
                } else {
                    assert(vs[j] == vt[j - 1]);
                }
            }
        } else {
            assert forall|j: int| 0 <= j < vs.len() implies datum_lt(v, #[trigger] vs[j]) by {
                assert(vs[j] == vt[j]);
            }
        }
    }
}

/// In a strictly sorted record sequence, the values of one key come out
/// strictly ascending: the ordered, duplicate-free view `get` promises.
pub proof fn lemma_values_of_sorted(s: Seq<RecordModel>, k: DatumModel)
    requires
        sorted_strict(s),
    ensures
        forall|a: int, b: int|
            0 <= a < b < values_of(s, k).len() ==> datum_lt(
                #[trigger] values_of(s, k)[a],
                #[trigger] values_of(s, k)[b],
            ),
    decreases s.len(),
{
    if s.len() > 0 {
        let t = s.drop_first();
        assert forall|i: int, j: int| 0 <= i < j < t.len() implies record_lt(
            #[trigger] t[i],
            #[trigger] t[j],
        ) by {
            assert(t[i] == s[i + 1]);
            assert(t[j] == s[j + 1]);
        }
        lemma_values_of_sorted(t, k);
        let vs = values_of(s, k);
        let vt = values_of(t, k);
        if s[0].key == k {
            assert forall|i: int| 0 <= i < t.len() && t[i].key == k implies datum_lt(
                s[0].value,
                #[trigger] t[i].value,
            ) by {
                assert(t[i] == s[i + 1]);
                assert(record_lt(s[0], s[i + 1]));
                crate::datum::lemma_datum_lt_total(s[0].key, t[i].key);
            }
            lemma_values_of_above(t, k, s[0].value);
            assert forall|a: int, b: int| 0 <= a < b < vs.len() implies datum_lt(
                #[trigger] vs[a],
                #[trigger] vs[b],
            ) by {
                assert(vs[b] == vt[b - 1]);
                if a == 0 {
                    assert(vs[0] == s[0].value);
                } else {
                    assert(vs[a] == vt[a - 1]);
                }
            }
        } else {
            assert forall|a: int, b: int| 0 <= a < b < vs.len() implies datum_lt(
                #[trigger] vs[a],
                #[trigger] vs[b],
            ) by {
                assert(vs[a] == vt[a]);
                assert(vs[b] == vt[b]);
            }
        }
    }
}

/// The in-memory index.
pub struct MultiMap {
    /// All associations, flat, in strictly ascending record order.
    pub items: Vec<Record>,
    /// How many insert operations this instance has observed.
    pub count: usize,
}

impl MultiMap {
    /// The associations the index holds, as a sorted sequence of pairs.
    pub open spec fn model(self) -> Seq<RecordModel> {
        self.items@.map_values(|r: Record| r@)
    }

    pub open spec fn wf(self) -> bool {
        sorted_strict(self.model())
    }

    /// Whether the association `rv` is in the index.
    pub open spec fn contains_pair(self, rv: RecordModel) -> bool {
        self.model().contains(rv)
    }

    /// Whether some value is stored under key `k`.
    pub open spec fn has_key(self, k: DatumModel) -> bool {
        seq_has_key(self.model(), k)
    }

    /// An empty index that has observed no inserts.
    pub fn new() -> (r: MultiMap)
        ensures
            r.wf(),
            r.model().len() == 0,
            r.count == 0,
    {
        let r = MultiMap { items: Vec::new(), count: 0 };
        proof {
            assert(r.model() =~= Seq::<RecordModel>::empty());
        }
        r
    }

    /// Adds `value` to `key`'s collection (creating it if absent) and
    /// returns the new total count of insert operations.  Inserting an
    /// association that is already present changes no association but
    /// still counts as an operation.
    pub fn insert(&mut self, key: Datum, value: Datum) -> (r: usize)
        requires
            old(self).wf(),
            old(self).count < usize::MAX,
        ensures
            final(self).wf(),
            final(self).count == old(self).count + 1,
            r == final(self).count,
            forall|rv: RecordModel|
                final(self).contains_pair(rv) <==> old(self).contains_pair(rv) || rv
                    == (RecordModel { key: key@, value: value@ }),
    {
        let rec = Record { key, value };
        let ghost rv = rec@;
        let ghost m0 = self.model();
        let mut i: usize = 0;
        while i < self.items.len() && self.items[i].lt(&rec)
            invariant
                i <= self.items.len(),
                rec@ == rv,
                self.model() == m0,
                forall|j: int| 0 <= j < i ==> record_lt(#[trigger] m0[j], rv),
            decreases self.items.len() - i,
        {
            i = i + 1;
        }
        if i < self.items.len() && self.items[i].eq_record(&rec) {
            self.count = self.count + 1;
            proof {
                assert(self.model().contains(rv)) by {
                    assert(self.model()[i as int] == rv);
                }
            }
            return self.count;
        }
        proof {
            if i < m0.len() {
                lemma_record_lt_total(m0[i as int], rv);
            }
            assert(forall|j: int| i <= j < m0.len() ==> record_lt(rv, #[trigger] m0[j])) by {
                assert forall|j: int| i <= j < m0.len() implies record_lt(rv, #[trigger] m0[j]) by {
                    if j > i {
                        lemma_record_lt_trans(rv, m0[i as int], m0[j]);
                    }
                }
            }
        }
        self.items.insert(i, rec);
        self.count = self.count + 1;
        proof {
            let m1 = self.model();
            assert(m1 =~= m0.insert(i as int, rv)) by {
                assert(self.items@ == old(self).items@.insert(i as int, rec));
                assert(m1.len() == m0.len() + 1);
                assert(forall|j: int| 0 <= j < i ==> m1[j] == #[trigger] m0[j]);
                assert(m1[i as int] == rv);
                assert(forall|j: int| i < j < m1.len() ==> #[trigger] m1[j] == m0[j - 1]);
            }
            assert(sorted_strict(m1)) by {
                assert forall|a: int, b: int| 0 <= a < b < m1.len() implies record_lt(
                    m1[a],
                    m1[b],
                ) by {
                    if a < i && b < i {
                    } else if a < i && b == i {
                    } else if a == i {
                    } else if b > i && a < i {
                        assert(m1[b] == m0[b - 1]);
                    }
                }
            }
            assert forall|x: RecordModel| m1.contains(x) <==> m0.contains(x) || x == rv by {
                if m1.contains(x) {
                    let j = choose|j: int| 0 <= j < m1.len() && m1[j] == x;
                    if j < i {
                        assert(m0[j] == x);
                    } else if j > i {
                        assert(m0[j - 1] == x);
                    }
                }
                if m0.contains(x) {
                    let j = choose|j: int| 0 <= j < m0.len() && m0[j] == x;
                    if j < i {
                        assert(m1[j] == x);
                    } else {
                        assert(m1[j + 1] == x);
                    }
                }
                if x == rv {
                    assert(m1[i as int] == x);
                }
            }
        }
        self.count
    }

    /// All values stored under `key`, ascending, or `None` if the key was
    /// never inserted.
    pub fn get(&self, key: &Datum) -> (r: Option<Vec<Datum>>)
        requires
            self.wf(),
        ensures
            match r {
                Some(vs) => self.has_key(key@) && vs@.map_values(|d: Datum| d@) == values_of(
                    self.model(),
                    key@,
                ),
                None => !self.has_key(key@),
            },
    {
        let ghost m = self.model();
        let ghost k = key@;
        let mut out: Vec<Datum> = Vec::new();
        let mut i: usize = 0;
        proof {
            assert(out@.map_values(|d: Datum| d@) =~= Seq::<DatumModel>::empty());
            assert(m.skip(0) =~= m);
            assert(Seq::<DatumModel>::empty() + values_of(m, k) =~= values_of(m, k));
        }
        while i < self.items.len()
            invariant
                i <= self.items.len(),
                m == self.model(),
                k == key@,
                values_of(m, k) == out@.map_values(|d: Datum| d@) + values_of(
                    m.skip(i as int),
                    k,
                ),
            decreases self.items.len() - i,
        {
            let ghost outm = out@.map_values(|d: Datum| d@);
            proof {
                assert(m.skip(i as int).len() > 0);
                assert(m.skip(i as int)[0] == m[i as int]);
                assert(m.skip(i as int).drop_first() =~= m.skip(i + 1));
            }
            if self.items[i].key.eq_datum(key) {
                let d = self.items[i].value.duplicate();
                out.push(d);
                proof {
                    assert(out@.map_values(|d: Datum| d@) =~= outm.push(m[i as int].value));
                    assert(outm.push(m[i as int].value) + values_of(m.skip(i + 1), k) =~= outm + (
                    seq![m[i as int].value] + values_of(m.skip(i + 1), k)));
                }
            }
            i = i + 1;
        }
        proof {
            assert(m.skip(m.len() as int) =~= Seq::<RecordModel>::empty());
            assert(out@.map_values(|d: Datum| d@) + Seq::<DatumModel>::empty() =~= out@.map_values(
                |d: Datum| d@,
            ));
            lemma_values_of_nonempty(m, k);
        }
        if out.len() == 0 {
            None
        } else {
            Some(out)
        }
    }

    /// Whether `key` has any value in the index.
    pub fn contains_key(&self, key: &Datum) -> (r: bool)
        ensures
            r == self.has_key(key@),
    {
        let mut i: usize = 0;
        while i < self.items.len()
            invariant
                i <= self.items.len(),
                forall|j: int| 0 <= j < i ==> #[trigger] self.model()[j].key != key@,
            decreases self.items.len() - i,
        {
            if self.items[i].key.eq_datum(key) {
                proof {
                    assert(self.model()[i as int].key == key@);
                }
                return true;
            }
            i = i + 1;
        }
        false
    }

    /// Every association, in ascending key order and, within equal keys,
    /// ascending value order: the sorted stream compaction consumes.
    pub fn entries(&self) -> (r: Vec<Record>)
        ensures
            r@.map_values(|x: Record| x@) == self.model(),
    {
        let mut out: Vec<Record> = Vec::new();
        let mut i: usize = 0;
        proof {
            assert(out@.map_values(|x: Record| x@) =~= self.model().take(0));
        }
        while i < self.items.len()
            invariant
                i <= self.items.len(),
                out@.map_values(|x: Record| x@) == self.model().take(i as int),
            decreases self.items.len() - i,
        {
            let ghost outm = out@.map_values(|x: Record| x@);
            let rec = self.items[i].duplicate();
            out.push(rec);
            proof {
                assert(out@.map_values(|x: Record| x@) =~= outm.push(self.model()[i as int]));
                assert(self.model().take(i + 1) =~= self.model().take(i as int).push(
                    self.model()[i as int],
                ));
            }
            i = i + 1;
        }
        proof {
            assert(self.model().take(self.model().len() as int) =~= self.model());
        }
        out
    }
}

} // verus!
