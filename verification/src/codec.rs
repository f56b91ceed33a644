//! Fixed-width binary encoding and decoding of keys, values and records.
//!
//! A datum of kind `Byte` occupies its width as the byte itself followed
//! by zero padding.  A datum of kind `Text` is a 4-byte little-endian
//! length followed by the bytes themselves and zero padding.  Encoding
//! fails when the natural serialized form exceeds the declared width;
//! decoding fails on malformed or truncated input.  Encoding is
//! deterministic and side-effect free, and decoding inverts it exactly.
use vstd::prelude::*;

use crate::datum::{kind_of, Datum, DatumKind, DatumModel, Record, RecordModel};
use crate::KvError;

verus! {

pub open spec fn zeros(n: nat) -> Seq<u8> {
    Seq::new(n, |i| 0u8)
}

pub open spec fn pow256(k: nat) -> nat
    decreases k,
{
    if k == 0 {
        1
    } else {
        256 * pow256((k - 1) as nat)
    }
}

/// The `k` little-endian bytes of `n`.
pub open spec fn le_bytes(n: nat, k: nat) -> Seq<u8>
    decreases k,
{
    if k == 0 {
        Seq::empty()
    } else {
        seq![(n % 256) as u8] + le_bytes(n / 256, (k - 1) as nat)
    }
}

/// The number a little-endian byte string denotes.
pub open spec fn le_val(s: Seq<u8>) -> nat
    decreases s.len(),
{
    if s.len() == 0 {
        0
    } else {
        (s[0] as nat) + 256 * le_val(s.drop_first())
    }
}

pub proof fn lemma_pow256_4()
    ensures
        pow256(4) == 0x1_0000_0000,
{
    assert(pow256(0) == 1);
    assert(pow256(1) == 256);
    assert(pow256(2) == 0x1_0000);
    assert(pow256(3) == 0x100_0000);
}

pub proof fn lemma_le_bytes_len(n: nat, k: nat)
    ensures
        le_bytes(n, k).len() == k,
    decreases k,
{
    if k > 0 {
        lemma_le_bytes_len(n / 256, (k - 1) as nat);
    }
}

/// A little-endian string of `k` bytes denotes a number below `256^k`.
pub proof fn lemma_le_val_bound(s: Seq<u8>)
    ensures
        le_val(s) < pow256(s.len()),
    decreases s.len(),
{
    if s.len() > 0 {
        lemma_le_val_bound(s.drop_first());
    }
}

/// Reading back the little-endian bytes of `n` yields `n`.
pub proof fn lemma_le_round_trip(n: nat, k: nat)
    requires
        n < pow256(k),
    ensures
        le_val(le_bytes(n, k)) == n,
    decreases k,
{
    if k == 0 {
        assert(n == 0);
    } else {
        let rest = le_bytes(n / 256, (k - 1) as nat);
        assert((seq![(n % 256) as u8] + rest).drop_first() =~= rest);
        assert(n / 256 < pow256((k - 1) as nat)) by {
            vstd::arithmetic::div_mod::lemma_fundamental_div_mod(n as int, 256);
        }
        lemma_le_round_trip(n / 256, (k - 1) as nat);
        vstd::arithmetic::div_mod::lemma_fundamental_div_mod(n as int, 256);
    }
}

/// The bytes a datum encodes to within width `w`, if it fits.
pub open spec fn enc_datum(d: DatumModel, w: nat) -> Option<Seq<u8>> {
    match d {
        DatumModel::Byte(b) => if 1 <= w {
            Some(seq![b] + zeros((w - 1) as nat))
        } else {
            None
        },
        DatumModel::Text(t) => if 4 + t.len() <= w && t.len() < pow256(4) {
            Some(le_bytes(t.len(), 4) + t + zeros((w - 4 - t.len()) as nat))
        } else {
            None
        },
    }
}

/// The datum a width-`w` buffer decodes to, if well formed.
pub open spec fn dec_datum(kind: DatumKind, w: nat, bytes: Seq<u8>) -> Option<DatumModel> {
    if bytes.len() != w {
        None
    } else {
        match kind {
            DatumKind::Byte => if 1 <= w {
                Some(DatumModel::Byte(bytes[0]))
            } else {
                None
            },
            DatumKind::Text => if 4 <= w && 4 + le_val(bytes.subrange(0, 4)) <= w {
                Some(DatumModel::Text(bytes.subrange(4, 4 + le_val(bytes.subrange(0, 4)) as int)))
            } else {
                None
            },
        }
    }
}

/// The bytes a record encodes to: the key region then the value region.
pub open spec fn enc_record(r: RecordModel, ks: nat, vs: nat) -> Option<Seq<u8>> {
    if enc_datum(r.key, ks) is Some && enc_datum(r.value, vs) is Some {
        Some(enc_datum(r.key, ks).unwrap() + enc_datum(r.value, vs).unwrap())
    } else {
        None
    }
}

/// The record a width-`ks + vs` buffer decodes to, if well formed.
pub open spec fn dec_record(
    kk: DatumKind,
    vk: DatumKind,
    ks: nat,
    vs: nat,
    bytes: Seq<u8>,
) -> Option<RecordModel> {
    if bytes.len() == ks + vs {
        let k = dec_datum(kk, ks, bytes.subrange(0, ks as int));
        let v = dec_datum(vk, vs, bytes.subrange(ks as int, (ks + vs) as int));
        if k is Some && v is Some {
            Some(RecordModel { key: k.unwrap(), value: v.unwrap() })
        } else {
            None
        }
    } else {
        None
    }
}

/// Round trip for one datum: whatever encodes, decodes back to itself.
pub proof fn lemma_datum_round_trip(d: DatumModel, w: nat)
    requires
        enc_datum(d, w) is Some,
    ensures
        enc_datum(d, w).unwrap().len() == w,
        dec_datum(kind_of(d), w, enc_datum(d, w).unwrap()) == Some(d),
{
    let s = enc_datum(d, w).unwrap();
    match d {
        DatumModel::Byte(b) => {
            assert(s.len() == w);
            assert(s[0] == b);
        },
        DatumModel::Text(t) => {
            let n = t.len();
            lemma_le_bytes_len(n, 4);
            assert(s.len() == w);
            assert(s.subrange(0, 4) =~= le_bytes(n, 4));
            lemma_le_round_trip(n, 4);
            assert(le_val(s.subrange(0, 4)) == n);
            assert(s.subrange(4, 4 + n as int) =~= t);
        },
    }
}

/// Round trip for one record.
pub proof fn lemma_record_round_trip(r: RecordModel, ks: nat, vs: nat)
    requires
        enc_record(r, ks, vs) is Some,
    ensures
        enc_record(r, ks, vs).unwrap().len() == ks + vs,
        dec_record(kind_of(r.key), kind_of(r.value), ks, vs, enc_record(r, ks, vs).unwrap())
            == Some(r),
{
    let kb = enc_datum(r.key, ks).unwrap();
    let vb = enc_datum(r.value, vs).unwrap();
    lemma_datum_round_trip(r.key, ks);
    lemma_datum_round_trip(r.value, vs);
    let s = enc_record(r, ks, vs).unwrap();
    assert(s.subrange(0, ks as int) =~= kb);
    assert(s.subrange(ks as int, (ks + vs) as int) =~= vb);
    assert(dec_record(kind_of(r.key), kind_of(r.value), ks, vs, s) == Some(r));
}

/// Whatever decodes within a width also re-encodes within it.
pub proof fn lemma_decoded_datum_encodable(kind: DatumKind, w: nat, bytes: Seq<u8>)
    requires
        dec_datum(kind, w, bytes) is Some,
    ensures
        enc_datum(dec_datum(kind, w, bytes).unwrap(), w) is Some,
        kind_of(dec_datum(kind, w, bytes).unwrap()) == kind,
{
    match kind {
        DatumKind::Byte => {},
        DatumKind::Text => {
            lemma_le_val_bound(bytes.subrange(0, 4));
            lemma_pow256_4();
        },
    }
}

/// Whatever decodes as a record also re-encodes within the same widths.
pub proof fn lemma_decoded_record_encodable(
    kk: DatumKind,
    vk: DatumKind,
    ks: nat,
    vs: nat,
    bytes: Seq<u8>,
)
    requires
        dec_record(kk, vk, ks, vs, bytes) is Some,
    ensures
        enc_record(dec_record(kk, vk, ks, vs, bytes).unwrap(), ks, vs) is Some,
        kind_of(dec_record(kk, vk, ks, vs, bytes).unwrap().key) == kk,
        kind_of(dec_record(kk, vk, ks, vs, bytes).unwrap().value) == vk,
{
    lemma_decoded_datum_encodable(kk, ks, bytes.subrange(0, ks as int));
    lemma_decoded_datum_encodable(vk, vs, bytes.subrange(ks as int, (ks + vs) as int));
}

/// A fresh vector holding `src[start .. start + len]`.
pub fn copy_range(src: &Vec<u8>, start: usize, len: usize) -> (r: Vec<u8>)
    requires
        start + len <= src.len(),
    ensures
        r@ == src@.subrange(start as int, (start + len) as int),
{
    let mut out: Vec<u8> = Vec::new();
    let mut i: usize = 0;
    while i < len
        invariant
            i <= len,
            start + len <= src.len(),
            out@ == src@.subrange(start as int, (start + i) as int),
        decreases len - i,
    {
        out.push(src[start + i]);
        proof {
            assert(src@.subrange(start as int, (start + i + 1) as int) =~= src@.subrange(
                start as int,
                (start + i) as int,
            ).push(src@[(start + i) as int]));
        }
        i = i + 1;
    }
    out
}

/// Append `src` whole to `out`.
fn push_all(out: &mut Vec<u8>, src: &Vec<u8>)
    ensures
        final(out)@ == old(out)@ + src@,
{
    let mut i: usize = 0;
    while i < src.len()
        invariant
            i <= src.len(),
            out@ == old(out)@ + src@.take(i as int),
        decreases src.len() - i,
    {
        out.push(src[i]);
        proof {
            assert(old(out)@ + src@.take(i + 1) =~= (old(out)@ + src@.take(i as int)).push(
                src@[i as int],
            ));
        }
        i = i + 1;
    }
    proof {
        assert(old(out)@ + src@.take(src@.len() as int) =~= old(out)@ + src@);
    }
}

/// Append `count` zero bytes to `out`.
fn push_zeros(out: &mut Vec<u8>, count: usize)
    ensures
        final(out)@ == old(out)@ + zeros(count as nat),
{
    let mut i: usize = 0;
    while i < count
        invariant
            i <= count,
            out@ == old(out)@ + zeros(i as nat),
        decreases count - i,
    {
        proof {
            assert(old(out)@ + zeros(0) =~= old(out)@);
            assert(old(out)@ + zeros((i + 1) as nat) =~= (old(out)@ + zeros(i as nat)).push(0u8));
        }
        out.push(0u8);
        i = i + 1;
    }
    proof {
        assert(old(out)@ + zeros(0) =~= old(out)@);
    }
}

/// The 4 little-endian bytes of `n`.
fn le4_of(n: u32) -> (r: Vec<u8>)
    ensures
        r@ == le_bytes(n as nat, 4),
{
    let mut out: Vec<u8> = Vec::new();
    let mut m: u32 = n;
    let mut i: usize = 0;
    proof {
        assert(Seq::<u8>::empty() + le_bytes(n as nat, 4) =~= le_bytes(n as nat, 4));
    }
    while i < 4
        invariant
            i <= 4,
            le_bytes(n as nat, 4) == out@ + le_bytes(m as nat, (4 - i) as nat),
            out@.len() == i,
        decreases 4 - i,
    {
        let b: u8 = (m % 256) as u8;
        proof {
            assert(le_bytes(m as nat, (4 - i) as nat) == seq![(m as nat % 256) as u8] + le_bytes(
                m as nat / 256,
                (4 - i - 1) as nat,
            ));
            assert((out@ + le_bytes(m as nat, (4 - i) as nat)) =~= out@.push(b) + le_bytes(
                m as nat / 256,
                (4 - i - 1) as nat,
            ));
        }
        out.push(b);
        m = m / 256;
        i = i + 1;
    }
    proof {
        assert(le_bytes(m as nat, 0) =~= Seq::<u8>::empty());
        assert(out@ + Seq::<u8>::empty() =~= out@);
    }
    out
}

/// The number the first 4 bytes of `bytes` denote, little-endian.
fn le4_val(bytes: &Vec<u8>) -> (r: u32)
    requires
        bytes.len() >= 4,
    ensures
        r as nat == le_val(bytes@.subrange(0, 4)),
{
    let mut acc: u32 = 0;
    let mut j: usize = 4;
    proof {
        assert(bytes@.subrange(4, 4) =~= Seq::<u8>::empty());
        lemma_pow256_4();
    }
    while j > 0
        invariant
            j <= 4,
            bytes.len() >= 4,
            acc as nat == le_val(bytes@.subrange(j as int, 4)),
            (acc as nat) < pow256((4 - j) as nat),
        decreases j,
    {
        proof {
            assert(bytes@.subrange(j - 1, 4).drop_first() =~= bytes@.subrange(j as int, 4));
            assert(le_val(bytes@.subrange(j - 1, 4)) == bytes@[j - 1] + 256 * le_val(
                bytes@.subrange(j as int, 4),
            ));
            assert(pow256((4 - (j - 1)) as nat) == 256 * pow256((4 - j) as nat));
            lemma_pow256_4();
            assert(pow256((4 - (j - 1)) as nat) <= pow256(4)) by {
                lemma_pow256_monotone((4 - (j - 1)) as nat, 4);
            }
        }
        acc = acc * 256 + (bytes[j - 1] as u32);
        j = j - 1;
    }
    acc
}

pub proof fn lemma_pow256_monotone(a: nat, b: nat)
    requires
        a <= b,
    ensures
        pow256(a) <= pow256(b),
    decreases b,
{
    if a < b {
        lemma_pow256_monotone(a, (b - 1) as nat);
        assert(pow256(b) == 256 * pow256((b - 1) as nat));
    }
}

/// Append the width-`w` encoding of `d` to `out`.
///
/// Returns `Encoding` exactly when the datum does not fit the width, and
/// then leaves `out` unchanged.
pub fn encode_datum_into(out: &mut Vec<u8>, d: &Datum, w: usize) -> (r: Result<(), KvError>)
    ensures
        match r {
            Ok(()) => enc_datum(d@, w as nat) is Some && final(out)@ == old(out)@ + enc_datum(
                d@,
                w as nat,
            ).unwrap(),
            Err(e) => e == KvError::Encoding && enc_datum(d@, w as nat) is None && final(out)@
                == old(out)@,
        },
{
    match d {
        Datum::Byte(b) => {
            if w < 1 {
                return Err(KvError::Encoding);
            }
            out.push(*b);
            push_zeros(out, w - 1);
            proof {
                assert((old(out)@.push(*b)) + zeros((w - 1) as nat) =~= old(out)@ + (seq![*b]
                    + zeros((w - 1) as nat)));
            }
            Ok(())
        },
        Datum::Text(t) => {
            if w < 4 || t.len() > w - 4 {
                return Err(KvError::Encoding);
            }
            if t.len() > 0xFFFF_FFFFusize {
                proof {
                    lemma_pow256_4();
                }
                return Err(KvError::Encoding);
            }
            proof {
                lemma_pow256_4();
            }
            let lenb = le4_of(t.len() as u32);
            push_all(out, &lenb);
            push_all(out, t);
            push_zeros(out, w - 4 - t.len());
            proof {
                assert(((old(out)@ + lenb@) + t@) + zeros((w - 4 - t@.len()) as nat) =~= old(out)@
                    + (le_bytes(t@.len(), 4) + t@ + zeros((w - 4 - t@.len()) as nat)));
            }
            Ok(())
        },
    }
}

/// The width-`ks + vs` encoding of a record.
///
/// Returns `Encoding` exactly when the key or the value does not fit its
/// declared width.
pub fn encode_record(r: &Record, key_size: usize, value_size: usize) -> (res: Result<
    Vec<u8>,
    KvError,
>)
    ensures
        match res {
            Ok(bytes) => enc_record(r@, key_size as nat, value_size as nat) == Some(bytes@)
                && bytes@.len() == key_size + value_size,
            Err(e) => e == KvError::Encoding && enc_record(
                r@,
                key_size as nat,
                value_size as nat,
            ) is None,
        },
{
    let mut out: Vec<u8> = Vec::new();
    match encode_datum_into(&mut out, &r.key, key_size) {
        Ok(()) => {},
        Err(e) => {
            return Err(e);
        },
    }
    match encode_datum_into(&mut out, &r.value, value_size) {
        Ok(()) => {},
        Err(e) => {
            return Err(e);
        },
    }
    proof {
        assert((Seq::<u8>::empty() + enc_datum(r@.key, key_size as nat).unwrap()) + enc_datum(
            r@.value,
            value_size as nat,
        ).unwrap() =~= enc_datum(r@.key, key_size as nat).unwrap() + enc_datum(
            r@.value,
            value_size as nat,
        ).unwrap());
        lemma_datum_round_trip(r@.key, key_size as nat);
        lemma_datum_round_trip(r@.value, value_size as nat);
    }
    Ok(out)
}

/// The datum a width-`w` buffer holds.
///
/// Returns `Decoding` exactly when the buffer is not a valid width-`w`
/// encoding of a datum of the given kind.
pub fn decode_datum(bytes: &Vec<u8>, kind: DatumKind, w: usize) -> (r: Result<Datum, KvError>)
    ensures
        match r {
            Ok(d) => dec_datum(kind, w as nat, bytes@) == Some(d@),
            Err(e) => e == KvError::Decoding && dec_datum(kind, w as nat, bytes@) is None,
        },
{
    if bytes.len() != w {
        return Err(KvError::Decoding);
    }
    match kind {
        DatumKind::Byte => {
            if w < 1 {
                return Err(KvError::Decoding);
            }
            Ok(Datum::Byte(bytes[0]))
        },
        DatumKind::Text => {
            if w < 4 {
                return Err(KvError::Decoding);
            }
            let n = le4_val(bytes);
            if n as usize > w - 4 {
                return Err(KvError::Decoding);
            }
            let t = copy_range(bytes, 4, n as usize);
            Ok(Datum::Text(t))
        },
    }
}

/// The record a width-`ks + vs` buffer holds.
///
/// Returns `Decoding` exactly when the buffer is not a valid encoding of
/// a record of the given kinds and widths.
pub fn decode_record(
    bytes: &Vec<u8>,
    key_kind: DatumKind,
    value_kind: DatumKind,
    key_size: usize,
    value_size: usize,
) -> (res: Result<Record, KvError>)
    requires
        key_size + value_size <= usize::MAX,
    ensures
        match res {
            Ok(rec) => dec_record(
                key_kind,
                value_kind,
                key_size as nat,
                value_size as nat,
                bytes@,
            ) == Some(rec@),
            Err(e) => e == KvError::Decoding && dec_record(
                key_kind,
                value_kind,
                key_size as nat,
                value_size as nat,
                bytes@,
            ) is None,
        },
{
    if bytes.len() != key_size + value_size {
        return Err(KvError::Decoding);
    }
    let kbuf = copy_range(bytes, 0, key_size);
    let vbuf = copy_range(bytes, key_size, value_size);
    let key = match decode_datum(&kbuf, key_kind, key_size) {
        Ok(d) => d,
        Err(e) => {
            return Err(e);
        },
    };
    let value = match decode_datum(&vbuf, value_kind, value_size) {
        Ok(d) => d,
        Err(e) => {
            return Err(e);
        },
    };
    Ok(Record { key, value })
}

} // verus!
