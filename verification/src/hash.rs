//! Row ids for rows that have no row of a table behind them.
//!
//! A derived row is numbered by a digest of its values, so that the row inserted for some values
//! and the row retracted for the same values carry the same number. The digest is FNV-1a over an
//! encoding in which every value starts with a tag and text and blobs carry their length.

use vstd::prelude::*;

use crate::value::{data, Datum, HashableRow, Numeric, NumericView, RowView, Value};

verus! {

pub const FNV_OFFSET: u64 = 0xcbf29ce484222325;

pub const FNV_PRIME: u64 = 0x100000001b3;

/// One byte taken into the digest.
pub open spec fn absorbed(h: u64, b: u8) -> u64 {
    u64::wrapping_mul(h ^ (b as u64), FNV_PRIME)
}

/// A sequence of bytes taken into the digest.
pub open spec fn absorbed_all(h: u64, bytes: Seq<u8>) -> u64
    decreases bytes.len(),
{
    if bytes.len() == 0 {
        h
    } else {
        absorbed(absorbed_all(h, bytes.drop_last()), bytes.last())
    }
}

/// A 64-bit word taken into the digest, low byte first.
pub open spec fn absorbed_word(h: u64, w: u64) -> u64 {
    absorbed_all(
        h,
        seq![
            (w & 0xff) as u8,
            ((w >> 8) & 0xff) as u8,
            ((w >> 16) & 0xff) as u8,
            ((w >> 24) & 0xff) as u8,
            ((w >> 32) & 0xff) as u8,
            ((w >> 40) & 0xff) as u8,
            ((w >> 48) & 0xff) as u8,
            ((w >> 56) & 0xff) as u8,
        ],
    )
}

/// A value taken into the digest.
pub open spec fn absorbed_datum(h: u64, d: Datum) -> u64 {
    match d {
        Datum::Null => absorbed(h, 0),
        Datum::Numeric(NumericView::Integer(i)) => absorbed_word(absorbed(h, 1), i as u64),
        Datum::Numeric(NumericView::Float(f)) => absorbed_word(absorbed(h, 2), f.bits),
        Datum::Text(s) => {
            let bytes = vstd::utf8::encode_utf8(s);
            absorbed_all(absorbed_word(absorbed(h, 3), bytes.len() as u64), bytes)
        },
        Datum::Blob(bytes) => absorbed_all(
            absorbed_word(absorbed(h, 4), bytes.len() as u64),
            bytes,
        ),
    }
}

/// A list of values taken into the digest.
pub open spec fn absorbed_data(h: u64, values: Seq<Datum>) -> u64
    decreases values.len(),
{
    if values.len() == 0 {
        h
    } else {
        absorbed_datum(absorbed_data(h, values.drop_last()), values.last())
    }
}

/// The digest of a list of values, which is the row id of a derived row.
pub open spec fn fingerprint(values: Seq<Datum>) -> i64 {
    absorbed_data(FNV_OFFSET, values) as i64
}

/// The row that stands for a list of values.
pub open spec fn derived_row(values: Seq<Datum>) -> RowView {
    RowView { rowid: fingerprint(values), values }
}

fn absorb(h: u64, b: u8) -> (r: u64)
    ensures
        r == absorbed(h, b),
{
    (h ^ (b as u64)).wrapping_mul(FNV_PRIME)
}

fn absorb_all(h: u64, bytes: &[u8]) -> (r: u64)
    ensures
        r == absorbed_all(h, bytes@),
{
    let mut acc: u64 = h;
    let mut i: usize = 0;
    assert(bytes@.take(0) =~= Seq::<u8>::empty());
    while i < bytes.len()
        invariant
            i <= bytes.len(),
            acc == absorbed_all(h, bytes@.take(i as int)),
        decreases bytes.len() - i,
    {
        assert(bytes@.take(i + 1).drop_last() =~= bytes@.take(i as int));
        acc = absorb(acc, bytes[i]);
        i += 1;
    }
    assert(bytes@.take(i as int) =~= bytes@);
    acc
}

fn absorb_word(h: u64, w: u64) -> (r: u64)
    ensures
        r == absorbed_word(h, w),
{
    let bytes: [u8; 8] = [
        (w & 0xff) as u8,
        ((w >> 8) & 0xff) as u8,
        ((w >> 16) & 0xff) as u8,
        ((w >> 24) & 0xff) as u8,
        ((w >> 32) & 0xff) as u8,
        ((w >> 40) & 0xff) as u8,
        ((w >> 48) & 0xff) as u8,
        ((w >> 56) & 0xff) as u8,
    ];
    let ghost listed = seq![
        (w & 0xff) as u8,
        ((w >> 8) & 0xff) as u8,
        ((w >> 16) & 0xff) as u8,
        ((w >> 24) & 0xff) as u8,
        ((w >> 32) & 0xff) as u8,
        ((w >> 40) & 0xff) as u8,
        ((w >> 48) & 0xff) as u8,
        ((w >> 56) & 0xff) as u8,
    ];
    assert(bytes@ =~= listed);
    absorb_all(h, bytes.as_slice())
}

fn absorb_value(h: u64, v: &Value) -> (r: u64)
    ensures
        r == absorbed_datum(h, v@),
{
    match v {
        Value::Null => absorb(h, 0),
        Value::Numeric(Numeric::Integer(i)) => absorb_word(absorb(h, 1), *i as u64),
        Value::Numeric(Numeric::Float(f)) => absorb_word(absorb(h, 2), f.bits),
        Value::Text(s) => {
            let bytes = s.as_str().as_bytes();
            absorb_all(absorb_word(absorb(h, 3), bytes.len() as u64), bytes)
        },
        Value::Blob(b) => absorb_all(
            absorb_word(absorb(h, 4), b.len() as u64),
            b.as_slice(),
        ),
    }
}

/// The digest of a list of values.
pub fn digest(values: &Vec<Value>) -> (r: i64)
    ensures
        r == fingerprint(data(values@)),
{
    let mut acc: u64 = FNV_OFFSET;
    let mut i: usize = 0;
    let ghost all = data(values@);
    assert(all.take(0) =~= Seq::<Datum>::empty());
    while i < values.len()
        invariant
            i <= values.len(),
            all == data(values@),
            acc == absorbed_data(FNV_OFFSET, all.take(i as int)),
        decreases values.len() - i,
    {
        assert(all.take(i + 1).drop_last() =~= all.take(i as int));
        acc = absorb_value(acc, &values[i]);
        i += 1;
    }
    assert(all.take(i as int) =~= all);
    acc as i64
}

/// The row that stands for a list of values: its row id is the digest of the values.
pub fn derive_row(values: Vec<Value>) -> (r: HashableRow)
    ensures
        r@ == derived_row(data(values@)),
        r.values == values,
{
    HashableRow::new(digest(&values), values)
}

proof fn lemma_absorbed_concat(h: u64, a: Seq<u8>, b: Seq<u8>)
    ensures
        absorbed_all(absorbed_all(h, a), b) == absorbed_all(h, a + b),
    decreases b.len(),
{
    if b.len() == 0 {
        assert(a + b =~= a);
    } else {
        lemma_absorbed_concat(h, a, b.drop_last());
        assert((a + b).drop_last() =~= a + b.drop_last());
    }
}

proof fn lemma_absorbed_folds(h: u64, bytes: Seq<u8>)
    ensures
        absorbed_all(h, bytes) == bytes.fold_left(
            h,
            |x: u64, b: u8| u64::wrapping_mul(x ^ (b as u64), 0x100000001b3),
        ),
    decreases bytes.len(),
{
    if bytes.len() > 0 {
        lemma_absorbed_folds(h, bytes.drop_last());
    }
}

proof fn lemma_absorbed_parts(h: u64, values: Seq<Datum>, parts: Seq<Seq<u8>>)
    requires
        parts.len() == values.len(),
        forall|i: int|
            0 <= i < values.len() ==> forall|x: u64| #[trigger]
                absorbed_datum(x, values[i]) == absorbed_all(x, #[trigger] parts[i]),
    ensures
        absorbed_data(h, values) == absorbed_all(h, parts.flatten_alt()),
    decreases values.len(),
{
    if values.len() > 0 {
        let front = values.drop_last();
        let fewer = parts.drop_last();
        assert forall|i: int| 0 <= i < front.len() implies forall|x: u64| #[trigger]
            absorbed_datum(x, front[i]) == absorbed_all(x, #[trigger] fewer[i]) by {
            assert(front[i] == values[i] && fewer[i] == parts[i]);
        }
        lemma_absorbed_parts(h, front, fewer);
        lemma_absorbed_concat(h, fewer.flatten_alt(), parts.last());
        assert(parts[parts.len() - 1] == parts.last());
    }
}

/// The row id of a derived row is the FNV-1a digest of all its values, one after the other: a tag for
/// what kind of value it is, then nothing for NULL, eight bytes from the lowest up for a number, and
/// for texts and blobs the length in eight bytes and then the bytes themselves.
pub proof fn law_the_digest_takes_in_every_value(values: Seq<Datum>, parts: Seq<Seq<u8>>)
    requires
        parts.len() == values.len(),
        forall|i: int|
            0 <= i < values.len() ==> ({
                let word = |w: u64|
                    seq![
                        (w & 0xff) as u8,
                        ((w >> 8) & 0xff) as u8,
                        ((w >> 16) & 0xff) as u8,
                        ((w >> 24) & 0xff) as u8,
                        ((w >> 32) & 0xff) as u8,
                        ((w >> 40) & 0xff) as u8,
                        ((w >> 48) & 0xff) as u8,
                        ((w >> 56) & 0xff) as u8,
                    ];
                #[trigger] parts[i] == (match values[i] {
                    Datum::Null => seq![0u8],
                    Datum::Numeric(NumericView::Integer(n)) => seq![1u8] + word(n as u64),
                    Datum::Numeric(NumericView::Float(f)) => seq![2u8] + word(f.bits),
                    Datum::Text(t) => seq![3u8] + word(
                        vstd::utf8::encode_utf8(t).len() as u64,
                    ) + vstd::utf8::encode_utf8(t),
                    Datum::Blob(b) => seq![4u8] + word(b.len() as u64) + b,
                })
            }),
    ensures
        fingerprint(values) == parts.flatten_alt().fold_left(
            0xcbf29ce484222325,
            |x: u64, b: u8| u64::wrapping_mul(x ^ (b as u64), 0x100000001b3),
        ) as i64,
        derived_row(values).rowid == fingerprint(values),
        derived_row(values).values == values,
{
    assert forall|i: int| 0 <= i < values.len() implies forall|x: u64| #[trigger]
        absorbed_datum(x, values[i]) == absorbed_all(x, #[trigger] parts[i]) by {
        assert forall|x: u64| #[trigger] absorbed_datum(x, values[i]) == absorbed_all(
            x,
            parts[i],
        ) by {
            reveal_with_fuel(absorbed_all, 2);
            match values[i] {
                Datum::Null => {
                    assert(seq![0u8].drop_last() =~= Seq::<u8>::empty());
                },
                Datum::Numeric(NumericView::Integer(n)) => {
                    lemma_tagged(x, 1, n as u64);
                },
                Datum::Numeric(NumericView::Float(f)) => {
                    lemma_tagged(x, 2, f.bits);
                },
                Datum::Text(t) => {
                    let bytes = vstd::utf8::encode_utf8(t);
                    lemma_tagged(x, 3, bytes.len() as u64);
                    lemma_absorbed_concat(x, seq![3u8] + word_bytes(bytes.len() as u64), bytes);
                },
                Datum::Blob(b) => {
                    lemma_tagged(x, 4, b.len() as u64);
                    lemma_absorbed_concat(x, seq![4u8] + word_bytes(b.len() as u64), b);
                },
            }
        }
    }
    lemma_absorbed_parts(FNV_OFFSET, values, parts);
    lemma_absorbed_folds(FNV_OFFSET, parts.flatten_alt());
}

spec fn word_bytes(w: u64) -> Seq<u8> {
    seq![
        (w & 0xff) as u8,
        ((w >> 8) & 0xff) as u8,
        ((w >> 16) & 0xff) as u8,
        ((w >> 24) & 0xff) as u8,
        ((w >> 32) & 0xff) as u8,
        ((w >> 40) & 0xff) as u8,
        ((w >> 48) & 0xff) as u8,
        ((w >> 56) & 0xff) as u8,
    ]
}

proof fn lemma_tagged(h: u64, tag: u8, w: u64)
    ensures
        absorbed_word(absorbed(h, tag), w) == absorbed_all(h, seq![tag] + word_bytes(w)),
{
    lemma_absorbed_concat(h, seq![tag], word_bytes(w));
    reveal_with_fuel(absorbed_all, 2);
    assert(seq![tag].drop_last() =~= Seq::<u8>::empty());
    assert(absorbed_all(h, seq![tag]) == absorbed(h, tag));
}

} // verus!
