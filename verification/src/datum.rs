//! Keys and values of the engine, with their total order.
//!
//! A datum is either a single byte or a byte string; the two forms mirror
//! the fixed-width integer keys and the string keys a store is opened
//! with.  Byte strings are ordered lexicographically, and a record (one
//! key-value pair) is ordered by key first, then by value.
use vstd::prelude::*;

verus! {

/// Which of the two datum forms a store holds; fixed when a file is opened.
#[derive(Clone, Copy, Debug, PartialEq, Eq, Structural)]
pub enum DatumKind {
    Byte,
    Text,
}

/// A key or a value: a single byte, or a byte string of bounded width.
#[derive(Debug, PartialEq, Eq)]
pub enum Datum {
    Byte(u8),
    Text(Vec<u8>),
}

/// The mathematical form of a `Datum`.
#[verifier::ext_equal]
pub enum DatumModel {
    Byte(u8),
    Text(Seq<u8>),
}

impl View for Datum {
    type V = DatumModel;

    open spec fn view(&self) -> DatumModel {
        match self {
            Datum::Byte(b) => DatumModel::Byte(*b),
            Datum::Text(t) => DatumModel::Text(t@),
        }
    }
}

/// One key-value pair.
#[derive(Debug, PartialEq, Eq)]
pub struct Record {
    pub key: Datum,
    pub value: Datum,
}

/// The mathematical form of a `Record`.
#[verifier::ext_equal]
pub struct RecordModel {
    pub key: DatumModel,
    pub value: DatumModel,
}

impl View for Record {
    type V = RecordModel;

    open spec fn view(&self) -> RecordModel {
        RecordModel { key: self.key@, value: self.value@ }
    }
}

pub open spec fn kind_of(d: DatumModel) -> DatumKind {
    match d {
        DatumModel::Byte(_) => DatumKind::Byte,
        DatumModel::Text(_) => DatumKind::Text,
    }
}

/// Strict lexicographic order on byte strings.
pub open spec fn lex_lt(a: Seq<u8>, b: Seq<u8>) -> bool
    decreases a.len(),
{
    if b.len() == 0 {
        false
    } else if a.len() == 0 {
        true
    } else if a[0] < b[0] {
        true
    } else if a[0] > b[0] {
        false
    } else {
        lex_lt(a.drop_first(), b.drop_first())
    }
}

/// Strict total order on datums: all single bytes sort before all byte
/// strings, so that one order covers both forms.
pub open spec fn datum_lt(a: DatumModel, b: DatumModel) -> bool {
    match (a, b) {
        (DatumModel::Byte(x), DatumModel::Byte(y)) => x < y,
        (DatumModel::Byte(_), DatumModel::Text(_)) => true,
        (DatumModel::Text(_), DatumModel::Byte(_)) => false,
        (DatumModel::Text(s), DatumModel::Text(t)) => lex_lt(s, t),
    }
}

pub open spec fn datum_le(a: DatumModel, b: DatumModel) -> bool {
    datum_lt(a, b) || a == b
}

/// Records order by key, then by value.
pub open spec fn record_lt(a: RecordModel, b: RecordModel) -> bool {
    datum_lt(a.key, b.key) || (a.key == b.key && datum_lt(a.value, b.value))
}

pub open spec fn record_le(a: RecordModel, b: RecordModel) -> bool {
    record_lt(a, b) || a == b
}

/// Strictly ascending: no two entries repeat, later ones are larger.
pub open spec fn sorted_strict(s: Seq<RecordModel>) -> bool {
    forall|i: int, j: int| 0 <= i < j < s.len() ==> record_lt(s[i], s[j])
}

/// Non-decreasing: equal records may repeat.
pub open spec fn sorted_le(s: Seq<RecordModel>) -> bool {
    forall|i: int, j: int| 0 <= i < j < s.len() ==> record_le(s[i], s[j])
}

/// A strictly ascending sequence is in particular non-decreasing: the
/// form in which the index's stream enters the compaction merge.
pub proof fn lemma_sorted_strict_implies_le(s: Seq<RecordModel>)
    ensures
        sorted_strict(s) ==> sorted_le(s),
{
}

/// The lexicographic order is a strict total order: of `a < b`, `b < a`
/// and `a == b`, exactly one holds.
pub proof fn lemma_lex_lt_total(a: Seq<u8>, b: Seq<u8>)
    ensures
        lex_lt(a, b) || lex_lt(b, a) || a == b,
        lex_lt(a, b) ==> !lex_lt(b, a),
        lex_lt(a, b) ==> a != b,
    decreases a.len(),
{
    if a.len() == 0 && b.len() == 0 {
        assert(a =~= b);
    } else if a.len() != 0 && b.len() != 0 && a[0] == b[0] {
        lemma_lex_lt_total(a.drop_first(), b.drop_first());
        if !lex_lt(a, b) && !lex_lt(b, a) {
            assert(a.drop_first() == b.drop_first());
            assert(a.len() == b.len());
            assert forall|i: int| 0 <= i < a.len() implies a[i] == b[i] by {
                if i >= 1 {
                    assert(a[i] == a.drop_first()[i - 1]);
                    assert(b[i] == b.drop_first()[i - 1]);
                }
            }
            assert(a =~= b);
        }
        if lex_lt(a, b) && a == b {
            assert(lex_lt(a.drop_first(), a.drop_first()));
            assert(a.drop_first() != a.drop_first());
        }
    }
}

/// Transitivity of the lexicographic order.
pub proof fn lemma_lex_lt_trans(a: Seq<u8>, b: Seq<u8>, c: Seq<u8>)
    requires
        lex_lt(a, b),
        lex_lt(b, c),
    ensures
        lex_lt(a, c),
    decreases a.len(),
{
    if a.len() != 0 && b.len() != 0 && c.len() != 0 && a[0] == b[0] && b[0] == c[0] {
        lemma_lex_lt_trans(a.drop_first(), b.drop_first(), c.drop_first());
    }
}

/// The datum order is a strict total order.
pub proof fn lemma_datum_lt_total(a: DatumModel, b: DatumModel)
    ensures
        datum_lt(a, b) || datum_lt(b, a) || a == b,
        datum_lt(a, b) ==> !datum_lt(b, a),
        datum_lt(a, b) ==> a != b,
{
    match (a, b) {
        (DatumModel::Text(s), DatumModel::Text(t)) => {
            lemma_lex_lt_total(s, t);
        },
        _ => {},
    }
}

/// Transitivity of the datum order.
pub proof fn lemma_datum_lt_trans(a: DatumModel, b: DatumModel, c: DatumModel)
    requires
        datum_lt(a, b),
        datum_lt(b, c),
    ensures
        datum_lt(a, c),
{
    match (a, b, c) {
        (DatumModel::Text(s), DatumModel::Text(t), DatumModel::Text(u)) => {
            lemma_lex_lt_trans(s, t, u);
        },
        _ => {},
    }
}

/// The record order is a strict total order.
pub proof fn lemma_record_lt_total(a: RecordModel, b: RecordModel)
    ensures
        record_lt(a, b) || record_lt(b, a) || a == b,
        record_lt(a, b) ==> !record_lt(b, a),
        record_lt(a, b) ==> a != b,
{
    lemma_datum_lt_total(a.key, b.key);
    lemma_datum_lt_total(a.value, b.value);
    if !record_lt(a, b) && !record_lt(b, a) {
        assert(a =~= b);
    }
}

/// Transitivity of the record order.
pub proof fn lemma_record_lt_trans(a: RecordModel, b: RecordModel, c: RecordModel)
    requires
        record_lt(a, b),
        record_lt(b, c),
    ensures
        record_lt(a, c),
{
    lemma_datum_lt_total(a.key, b.key);
    lemma_datum_lt_total(b.key, c.key);
    if datum_lt(a.key, b.key) && datum_lt(b.key, c.key) {
        lemma_datum_lt_trans(a.key, b.key, c.key);
    }
    if a.key == b.key && b.key == c.key {
        if datum_lt(a.value, b.value) && datum_lt(b.value, c.value) {
            lemma_datum_lt_trans(a.value, b.value, c.value);
        }
    }
}

/// Transitivity of the non-strict record order.
pub proof fn lemma_record_le_trans(a: RecordModel, b: RecordModel, c: RecordModel)
    requires
        record_le(a, b),
        record_le(b, c),
    ensures
        record_le(a, c),
{
    if record_lt(a, b) && record_lt(b, c) {
        lemma_record_lt_trans(a, b, c);
    }
}

/// Whether `a` comes strictly before `b` in the lexicographic order.
pub fn bytes_lt(a: &Vec<u8>, b: &Vec<u8>) -> (r: bool)
    ensures
        r == lex_lt(a@, b@),
{
    let mut i: usize = 0;
    proof {
        assert(a@.skip(0) =~= a@);
        assert(b@.skip(0) =~= b@);
    }
    loop
        invariant
            i <= a.len(),
            i <= b.len(),
            lex_lt(a@, b@) == lex_lt(a@.skip(i as int), b@.skip(i as int)),
        decreases a.len() - i,
    {
        if i == a.len() {
            return i < b.len();
        }
        if i == b.len() {
            return false;
        }
        proof {
            assert(a@.skip(i as int)[0] == a@[i as int]);
            assert(b@.skip(i as int)[0] == b@[i as int]);
        }
        if a[i] < b[i] {
            return true;
        }
        if a[i] > b[i] {
            return false;
        }
        proof {
            assert(a@.skip(i as int).drop_first() =~= a@.skip(i + 1));
            assert(b@.skip(i as int).drop_first() =~= b@.skip(i + 1));
        }
        i = i + 1;
    }
}

/// Whether `a` and `b` hold the same bytes.
pub fn bytes_eq(a: &Vec<u8>, b: &Vec<u8>) -> (r: bool)
    ensures
        r == (a@ == b@),
{
    if a.len() != b.len() {
        return false;
    }
    let mut i: usize = 0;
    while i < a.len()
        invariant
            a.len() == b.len(),
            i <= a.len(),
            forall|j: int| 0 <= j < i ==> a@[j] == b@[j],
        decreases a.len() - i,
    {
        if a[i] != b[i] {
            return false;
        }
        i = i + 1;
    }
    proof {
        assert(a@ =~= b@);
    }
    true
}

impl Datum {
    /// Whether `self` comes strictly before `other` in the datum order.
    pub fn lt(&self, other: &Datum) -> (r: bool)
        ensures
            r == datum_lt(self@, other@),
    {
        match (self, other) {
            (Datum::Byte(x), Datum::Byte(y)) => *x < *y,
            (Datum::Byte(_), Datum::Text(_)) => true,
            (Datum::Text(_), Datum::Byte(_)) => false,
            (Datum::Text(s), Datum::Text(t)) => bytes_lt(s, t),
        }
    }

    /// Whether `self` and `other` are the same datum.
    pub fn eq_datum(&self, other: &Datum) -> (r: bool)
        ensures
            r == (self@ == other@),
    {
        match (self, other) {
            (Datum::Byte(x), Datum::Byte(y)) => *x == *y,
            (Datum::Text(s), Datum::Text(t)) => bytes_eq(s, t),
            _ => false,
        }
    }

    /// Which of the two forms this datum has.
    pub fn kind(&self) -> (r: DatumKind)
        ensures
            r == kind_of(self@),
    {
        match self {
            Datum::Byte(_) => DatumKind::Byte,
            Datum::Text(_) => DatumKind::Text,
        }
    }

    /// An identical copy of the datum.
    pub fn duplicate(&self) -> (r: Datum)
        ensures
            r@ == self@,
    {
        match self {
            Datum::Byte(b) => Datum::Byte(*b),
            Datum::Text(t) => Datum::Text(copy_bytes(t)),
        }
    }
}

impl Record {
    /// Whether `self` comes strictly before `other` in the record order.
    pub fn lt(&self, other: &Record) -> (r: bool)
        ensures
            r == record_lt(self@, other@),
    {
        if self.key.lt(&other.key) {
            true
        } else if self.key.eq_datum(&other.key) {
            self.value.lt(&other.value)
        } else {
            false
        }
    }

    /// Whether `self` and `other` are the same pair.
    pub fn eq_record(&self, other: &Record) -> (r: bool)
        ensures
            r == (self@ == other@),
    {
        let r = self.key.eq_datum(&other.key) && self.value.eq_datum(&other.value);
        proof {
            if self@.key == other@.key && self@.value == other@.value {
                assert(self@ =~= other@);
            }
        }
        r
    }

    /// Whether `self` comes before or equals `other` in the record order.
    pub fn le(&self, other: &Record) -> (r: bool)
        ensures
            r == record_le(self@, other@),
    {
        self.lt(other) || self.eq_record(other)
    }

    /// An identical copy of the pair.
    pub fn duplicate(&self) -> (r: Record)
        ensures
            r@ == self@,
    {
        Record { key: self.key.duplicate(), value: self.value.duplicate() }
    }
}

/// A fresh vector holding the same bytes.
pub fn copy_bytes(v: &Vec<u8>) -> (r: Vec<u8>)
    ensures
        r@ == v@,
{
    let mut out: Vec<u8> = Vec::new();
    let mut i: usize = 0;
    while i < v.len()
        invariant
            i <= v.len(),
            out@ == v@.take(i as int),
        decreases v.len() - i,
    {
        out.push(v[i]);
        proof {
            assert(v@.take(i + 1) =~= v@.take(i as int).push(v@[i as int]));
        }
        i = i + 1;
    }
    proof {
        assert(v@.take(v@.len() as int) =~= v@);
    }
    out
}

} // verus!
