//! The bencode byte serializer.
//!
//! Strings become `<decimal byte length>:<bytes>`, integers `i<decimal>e`,
//! lists `l<items>e`, dictionaries `d<key value pairs>e` with entries in
//! stored order.

use vstd::prelude::*;
use vstd::utf8::encode_utf8;

use super::{entry_models_of, model_of, models_of, BencodeModel, BencodeString, BencodeValue};

verus! {

/// The decimal digits of a nonnegative number, most significant first.
pub open spec fn spec_decimal(n: int) -> Seq<u8>
    decreases n,
{
    if n < 10 {
        seq![(48 + if n >= 0 {
            n
        } else {
            0
        }) as u8]
    } else {
        spec_decimal(n / 10).push((48 + n % 10) as u8)
    }
}

/// The decimal digits of an integer, a minus sign leading a negative one.
pub open spec fn spec_decimal_i64(n: int) -> Seq<u8> {
    if n < 0 {
        seq![45u8] + spec_decimal(-n)
    } else {
        spec_decimal(n)
    }
}

/// The serialization of a byte string: length, colon, bytes.
pub open spec fn spec_encode_bytes(b: Seq<u8>) -> Seq<u8> {
    spec_decimal(b.len() as int) + seq![58u8] + b
}

/// The canonical serialization of a bencode value.
pub open spec fn spec_encode(v: BencodeValue) -> Seq<u8>
    decreases v,
{
    match v {
        BencodeValue::String(BencodeString::String(s)) => spec_encode_bytes(encode_utf8(s@)),
        BencodeValue::String(BencodeString::Bytes(b)) => spec_encode_bytes(b@),
        BencodeValue::Int(i) => seq![105u8] + spec_decimal_i64(i as int) + seq![101u8],
        BencodeValue::List(l) => seq![108u8] + spec_encode_items(l@) + seq![101u8],
        BencodeValue::Dict(d) => seq![100u8] + spec_encode_entries(d@) + seq![101u8],
    }
}

/// The serializations of list items, in order.
pub open spec fn spec_encode_items(l: Seq<BencodeValue>) -> Seq<u8>
    decreases l,
{
    if l.len() == 0 {
        Seq::<u8>::empty()
    } else {
        spec_encode(l[0]) + spec_encode_items(l.drop_first())
    }
}

/// The serializations of dictionary entries, keys before values, in order.
pub open spec fn spec_encode_entries(d: Seq<(String, BencodeValue)>) -> Seq<u8>
    decreases d,
{
    if d.len() == 0 {
        Seq::<u8>::empty()
    } else {
        spec_encode_bytes(encode_utf8(d[0].0@)) + spec_encode(d[0].1) + spec_encode_entries(
            d.drop_first(),
        )
    }
}

/// Appends the decimal digits of `n`.
fn push_decimal(out: &mut Vec<u8>, n: u64)
    ensures
        final(out)@ == old(out)@ + spec_decimal(n as int),
    decreases n,
{
    if n < 10 {
        out.push(48 + n as u8);
        assert(final(out)@ =~= old(out)@ + spec_decimal(n as int));
    } else {
        push_decimal(out, n / 10);
        out.push(48 + (n % 10) as u8);
        assert(final(out)@ =~= old(out)@ + spec_decimal(n as int));
    }
}

/// Serializes a text string.
pub fn encode_string(text: &str) -> (r: Vec<u8>)
    ensures
        r@ == spec_encode_bytes(encode_utf8(text@)),
{
    let bytes = text.as_bytes();
    let mut r: Vec<u8> = Vec::new();
    push_decimal(&mut r, bytes.len() as u64);
    r.push(58);
    let mut i: usize = 0;
    while i < bytes.len()
        invariant
            i <= bytes@.len(),
            bytes@ == encode_utf8(text@),
            r@ == spec_decimal(bytes@.len() as int) + seq![58u8] + bytes@.subrange(0, i as int),
        decreases bytes@.len() - i,
    {
        r.push(bytes[i]);
        assert(bytes@.subrange(0, i + 1 as int) =~= bytes@.subrange(0, i as int).push(
            bytes@[i as int],
        ));
        i = i + 1;
    }
    assert(bytes@.subrange(0, bytes@.len() as int) =~= bytes@);
    r
}

/// Serializes a raw byte string.
pub fn encode_bytes(bytes: &Vec<u8>) -> (r: Vec<u8>)
    ensures
        r@ == spec_encode_bytes(bytes@),
{
    let mut r: Vec<u8> = Vec::new();
    push_decimal(&mut r, bytes.len() as u64);
    r.push(58);
    let mut i: usize = 0;
    while i < bytes.len()
        invariant
            i <= bytes@.len(),
            r@ == spec_decimal(bytes@.len() as int) + seq![58u8] + bytes@.subrange(0, i as int),
        decreases bytes@.len() - i,
    {
        r.push(bytes[i]);
        assert(bytes@.subrange(0, i + 1 as int) =~= bytes@.subrange(0, i as int).push(
            bytes@[i as int],
        ));
        i = i + 1;
    }
    assert(bytes@.subrange(0, bytes@.len() as int) =~= bytes@);
    r
}

/// Serializes an integer as `i<decimal>e`.
pub fn encode_int(num: &i64) -> (r: Vec<u8>)
    ensures
        r@ == seq![105u8] + spec_decimal_i64(*num as int) + seq![101u8],
{
    let mut r: Vec<u8> = Vec::new();
    r.push(105);
    if *num < 0 {
        r.push(45);
        let mag: u64 = if *num == i64::MIN {
            9223372036854775808u64
        } else {
            (-*num) as u64
        };
        push_decimal(&mut r, mag);
    } else {
        push_decimal(&mut r, *num as u64);
    }
    r.push(101);
    assert(r@ =~= seq![105u8] + spec_decimal_i64(*num as int) + seq![101u8]);
    r
}

/// Serializes any bencode value.
pub fn encode_bencode(value: &BencodeValue) -> (r: Vec<u8>)
    ensures
        r@ == spec_encode(*value),
    decreases *value,
{
    match value {
        BencodeValue::String(BencodeString::Bytes(bytes)) => encode_bytes(bytes),
        BencodeValue::String(BencodeString::String(text)) => encode_string(text.as_str()),
        BencodeValue::Int(num) => encode_int(num),
        BencodeValue::List(list) => encode_list(list),
        BencodeValue::Dict(dict) => encode_dict(dict),
    }
}

/// Serializes a list as `l<items>e`.
pub fn encode_list(list: &Vec<BencodeValue>) -> (r: Vec<u8>)
    ensures
        r@ == seq![108u8] + spec_encode_items(list@) + seq![101u8],
    decreases list@,
{
    let mut r: Vec<u8> = Vec::new();
    r.push(108);
    let mut i: usize = 0;
    while i < list.len()
        invariant
            i <= list@.len(),
            r@ == seq![108u8] + spec_encode_items(list@.take(i as int)),
        decreases list@.len() - i,
    {
        let mut item = encode_bencode(&list[i]);
        r.append(&mut item);
        proof {
            lemma_items_take(list@, i as int);
        }
        i = i + 1;
    }
    r.push(101);
    assert(list@.take(list@.len() as int) =~= list@);
    r
}

/// The items of one more prefix element serialize to the prefix plus it.
proof fn lemma_items_take(l: Seq<BencodeValue>, i: int)
    requires
        0 <= i < l.len(),
    ensures
        spec_encode_items(l.take(i + 1)) == spec_encode_items(l.take(i)) + spec_encode(l[i]),
    decreases i,
{
    if i == 0 {
        assert(l.take(1)[0] == l[0]);
        assert(l.take(1).drop_first() =~= Seq::<BencodeValue>::empty());
        assert(l.take(0) =~= Seq::<BencodeValue>::empty());
        assert(spec_encode_items(l.take(1)) =~= spec_encode_items(l.take(0)) + spec_encode(l[0]));
    } else {
        lemma_items_take(l.drop_first(), i - 1);
        assert(l.take(i + 1).drop_first() =~= l.drop_first().take(i));
        assert(l.take(i).drop_first() =~= l.drop_first().take(i - 1));
        assert(l.take(i + 1)[0] == l[0]);
        assert(l.take(i)[0] == l[0]);
        assert(l.drop_first()[i - 1] == l[i]);
        assert(spec_encode_items(l.take(i + 1)) =~= spec_encode_items(l.take(i)) + spec_encode(
            l[i],
        ));
    }
}

/// Serializes a dictionary as `d<entries>e`, entries in stored order.
pub fn encode_dict(dict: &Vec<(String, BencodeValue)>) -> (r: Vec<u8>)
    ensures
        r@ == seq![100u8] + spec_encode_entries(dict@) + seq![101u8],
    decreases dict@,
{
    let mut r: Vec<u8> = Vec::new();
    r.push(100);
    let mut i: usize = 0;
    while i < dict.len()
        invariant
            i <= dict@.len(),
            r@ == seq![100u8] + spec_encode_entries(dict@.take(i as int)),
        decreases dict@.len() - i,
    {
        let mut key = encode_string(dict[i].0.as_str());
        r.append(&mut key);
        let mut val = encode_bencode(&dict[i].1);
        r.append(&mut val);
        proof {
            lemma_entries_take(dict@, i as int);
        }
        i = i + 1;
    }
    r.push(101);
    assert(dict@.take(dict@.len() as int) =~= dict@);
    r
}

/// The entries of one more prefix element serialize to the prefix plus it.
proof fn lemma_entries_take(d: Seq<(String, BencodeValue)>, i: int)
    requires
        0 <= i < d.len(),
    ensures
        spec_encode_entries(d.take(i + 1)) == spec_encode_entries(d.take(i)) + spec_encode_bytes(
            encode_utf8(d[i].0@),
        ) + spec_encode(d[i].1),
    decreases i,
{
    if i == 0 {
        assert(d.take(1)[0] == d[0]);
        assert(d.take(1).drop_first() =~= Seq::<(String, BencodeValue)>::empty());
        assert(d.take(0) =~= Seq::<(String, BencodeValue)>::empty());
        assert(spec_encode_entries(d.take(1)) =~= spec_encode_entries(d.take(0))
            + spec_encode_bytes(encode_utf8(d[0].0@)) + spec_encode(d[0].1));
    } else {
        lemma_entries_take(d.drop_first(), i - 1);
        assert(d.take(i + 1).drop_first() =~= d.drop_first().take(i));
        assert(d.take(i).drop_first() =~= d.drop_first().take(i - 1));
        assert(d.take(i + 1)[0] == d[0]);
        assert(d.take(i)[0] == d[0]);
        assert(d.drop_first()[i - 1] == d[i]);
        assert(spec_encode_entries(d.take(i + 1)) =~= spec_encode_entries(d.take(i))
            + spec_encode_bytes(encode_utf8(d[i].0@)) + spec_encode(d[i].1));
    }
}


/// The canonical serialization of a value shape.
pub open spec fn spec_encode_model(m: BencodeModel) -> Seq<u8>
    decreases m,
{
    match m {
        BencodeModel::Text(s) => spec_encode_bytes(encode_utf8(s)),
        BencodeModel::Bytes(b) => spec_encode_bytes(b),
        BencodeModel::Int(i) => seq![105u8] + spec_decimal_i64(i) + seq![101u8],
        BencodeModel::List(items) => seq![108u8] + spec_encode_model_items(items) + seq![101u8],
        BencodeModel::Dict(entries) => seq![100u8] + spec_encode_model_entries(entries)
            + seq![101u8],
    }
}

/// The serializations of item shapes, in order.
pub open spec fn spec_encode_model_items(items: Seq<BencodeModel>) -> Seq<u8>
    decreases items,
{
    if items.len() == 0 {
        Seq::<u8>::empty()
    } else {
        spec_encode_model(items[0]) + spec_encode_model_items(items.drop_first())
    }
}

/// The serializations of entry shapes, keys before values, in order.
pub open spec fn spec_encode_model_entries(entries: Seq<(Seq<char>, BencodeModel)>) -> Seq<u8>
    decreases entries,
{
    if entries.len() == 0 {
        Seq::<u8>::empty()
    } else {
        spec_encode_bytes(encode_utf8(entries[0].0)) + spec_encode_model(entries[0].1)
            + spec_encode_model_entries(entries.drop_first())
    }
}

proof fn lemma_encode_items_by_model(l: Seq<BencodeValue>)
    ensures
        spec_encode_items(l) == spec_encode_model_items(models_of(l)),
    decreases l,
{
    if l.len() > 0 {
        lemma_encode_by_model(l[0]);
        lemma_encode_items_by_model(l.drop_first());
        assert(models_of(l)[0] == model_of(l[0]));
        assert(models_of(l).drop_first() =~= models_of(l.drop_first()));
    }
}

proof fn lemma_encode_entries_by_model(d: Seq<(String, BencodeValue)>)
    ensures
        spec_encode_entries(d) == spec_encode_model_entries(entry_models_of(d)),
    decreases d,
{
    if d.len() > 0 {
        lemma_encode_by_model(d[0].1);
        lemma_encode_entries_by_model(d.drop_first());
        assert(entry_models_of(d)[0] == (d[0].0@, model_of(d[0].1)));
        assert(entry_models_of(d).drop_first() =~= entry_models_of(d.drop_first()));
    }
}

/// A value serializes by its shape alone.
pub proof fn lemma_encode_by_model(v: BencodeValue)
    ensures
        spec_encode(v) == spec_encode_model(model_of(v)),
    decreases v,
{
    match v {
        BencodeValue::String(_) => {},
        BencodeValue::Int(_) => {},
        BencodeValue::List(l) => {
            lemma_encode_items_by_model(l@);
        },
        BencodeValue::Dict(d) => {
            lemma_encode_entries_by_model(d@);
        },
    }
}

/// Two values of the same shape serialize to the same bytes.  With the
/// reader's contracts this closes the circle: what the reader hands back
/// from a serialized value serializes to the very bytes that were read.
pub proof fn lemma_same_shape_same_bytes(v: BencodeValue, w: BencodeValue)
    requires
        model_of(v) == model_of(w),
    ensures
        spec_encode(v) == spec_encode(w),
{
    lemma_encode_by_model(v);
    lemma_encode_by_model(w);
}

} // verus!
