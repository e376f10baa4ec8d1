//! The bencode data model and codec.
//!
//! Values are byte strings, integers, lists and dictionaries.  A dictionary
//! is kept as a list of key/value pairs in insertion order, inserting an
//! existing key replacing its value.  Strings that decode as UTF-8 are held
//! as text, any other byte string as raw bytes.

use vstd::prelude::*;
use vstd::utf8::{decode_utf8, encode_utf8, encode_utf8_decode_utf8, valid_utf8};

pub mod encoder;
pub mod parser;

verus! {

/// Why a bencode document was rejected: the offending text and a reason.
#[derive(Debug, PartialEq)]
pub struct ParseError {
    pub value: String,
    pub message: String,
}

/// A bencode byte string: text when it decodes as UTF-8, raw bytes otherwise.
#[derive(Debug, PartialEq)]
pub enum BencodeString {
    String(String),
    Bytes(Vec<u8>),
}

/// A bencode value.
#[derive(Debug, PartialEq)]
pub enum BencodeValue {
    String(BencodeString),
    Int(i64),
    List(Vec<BencodeValue>),
    Dict(Vec<(String, BencodeValue)>),
}

/// The mathematical shape of a bencode value: the same tree with every
/// payload as a sequence.  Contracts relate executable values to this shape.
pub enum BencodeModel {
    Text(Seq<char>),
    Bytes(Seq<u8>),
    Int(int),
    List(Seq<BencodeModel>),
    Dict(Seq<(Seq<char>, BencodeModel)>),
}

/// The shape of a byte string.
pub open spec fn string_model_of(bs: BencodeString) -> BencodeModel {
    match bs {
        BencodeString::String(s) => BencodeModel::Text(s@),
        BencodeString::Bytes(b) => BencodeModel::Bytes(b@),
    }
}

/// The shapes of list items, in order.
pub open spec fn models_of(l: Seq<BencodeValue>) -> Seq<BencodeModel>
    decreases l,
{
    if l.len() == 0 {
        Seq::<BencodeModel>::empty()
    } else {
        seq![model_of(l[0])] + models_of(l.drop_first())
    }
}

/// The shapes of dictionary entries, in order.
pub open spec fn entry_models_of(d: Seq<(String, BencodeValue)>) -> Seq<(Seq<char>, BencodeModel)>
    decreases d,
{
    if d.len() == 0 {
        Seq::<(Seq<char>, BencodeModel)>::empty()
    } else {
        seq![(d[0].0@, model_of(d[0].1))] + entry_models_of(d.drop_first())
    }
}

/// The shape of a bencode value.
pub open spec fn model_of(v: BencodeValue) -> BencodeModel
    decreases v,
{
    match v {
        BencodeValue::String(bs) => string_model_of(bs),
        BencodeValue::Int(i) => BencodeModel::Int(i as int),
        BencodeValue::List(l) => BencodeModel::List(models_of(l@)),
        BencodeValue::Dict(d) => BencodeModel::Dict(entry_models_of(d@)),
    }
}

/// Item shapes, element by element.
pub proof fn lemma_models_of(l: Seq<BencodeValue>)
    ensures
        models_of(l).len() == l.len(),
        forall|i: int| 0 <= i < l.len() ==> #[trigger] models_of(l)[i] == model_of(l[i]),
    decreases l.len(),
{
    if l.len() > 0 {
        lemma_models_of(l.drop_first());
        assert forall|i: int| 0 <= i < l.len() implies #[trigger] models_of(l)[i] == model_of(
            l[i],
        ) by {
            if i > 0 {
                assert(models_of(l)[i] == models_of(l.drop_first())[i - 1]);
                assert(l.drop_first()[i - 1] == l[i]);
            }
        }
    }
}

/// Entry shapes, element by element.
pub proof fn lemma_entry_models_of(d: Seq<(String, BencodeValue)>)
    ensures
        entry_models_of(d).len() == d.len(),
        forall|i: int|
            0 <= i < d.len() ==> #[trigger] entry_models_of(d)[i] == (d[i].0@, model_of(d[i].1)),
    decreases d.len(),
{
    if d.len() > 0 {
        lemma_entry_models_of(d.drop_first());
        assert forall|i: int| 0 <= i < d.len() implies #[trigger] entry_models_of(d)[i] == (
        d[i].0@,
        model_of(d[i].1),
        ) by {
            if i > 0 {
                assert(entry_models_of(d)[i] == entry_models_of(d.drop_first())[i - 1]);
                assert(d.drop_first()[i - 1] == d[i]);
            }
        }
    }
}

/// The index of the first entry shape with `key`, or the length if none.
pub open spec fn model_dict_find(
    entries: Seq<(Seq<char>, BencodeModel)>,
    key: Seq<char>,
) -> int
    decreases entries.len(),
{
    if entries.len() == 0 {
        0
    } else if entries[0].0 == key {
        0
    } else {
        1 + model_dict_find(entries.drop_first(), key)
    }
}

/// What inserting `key = value` does to the entry shapes: replaces the
/// value of the first entry with the key, else appends.
pub open spec fn model_dict_insert(
    entries: Seq<(Seq<char>, BencodeModel)>,
    key: Seq<char>,
    value: BencodeModel,
) -> Seq<(Seq<char>, BencodeModel)> {
    let m = model_dict_find(entries, key);
    if m < entries.len() {
        entries.update(m, (entries[m].0, value))
    } else {
        entries.push((key, value))
    }
}

/// Entry shapes find the same first key as the entries themselves.
pub proof fn lemma_dict_find_model(entries: Seq<(String, BencodeValue)>, key: Seq<char>)
    ensures
        model_dict_find(entry_models_of(entries), key) == dict_find(entries, key),
    decreases entries.len(),
{
    lemma_entry_models_of(entries);
    if entries.len() > 0 {
        assert(entry_models_of(entries)[0] == (entries[0].0@, model_of(entries[0].1)));
        if entries[0].0@ != key {
            lemma_dict_find_model(entries.drop_first(), key);
            assert(entry_models_of(entries).drop_first() =~= entry_models_of(
                entries.drop_first(),
            )) by {
                lemma_entry_models_of(entries.drop_first());
            }
        }
    }
}

/// Inserting into the entries and inserting into their shapes agree.
pub proof fn lemma_entry_models_insert(
    entries: Seq<(String, BencodeValue)>,
    inserted: Seq<(String, BencodeValue)>,
    key: Seq<char>,
    value: BencodeValue,
)
    requires
        ({
            let m = dict_find(entries, key);
            if m < entries.len() {
                inserted == entries.update(m, (entries[m].0, value))
            } else {
                exists|k: String| k@ == key && inserted == entries.push((k, value))
            }
        }),
    ensures
        entry_models_of(inserted) == model_dict_insert(entry_models_of(entries), key, model_of(value)),
{
    lemma_entry_models_of(entries);
    lemma_entry_models_of(inserted);
    lemma_dict_find_model(entries, key);
    lemma_dict_find(entries, key);
    assert(entry_models_of(inserted) =~= model_dict_insert(
        entry_models_of(entries),
        key,
        model_of(value),
    ));
}

/// The values the reader can hand back: text strings are anything, raw byte
/// strings only what does not decode as UTF-8 (else the reader would make
/// text of them), integers fit the wire's signed range, and dictionary keys
/// are unique.
pub open spec fn parseable(v: BencodeValue) -> bool
    decreases v,
{
    match v {
        BencodeValue::String(BencodeString::String(_)) => true,
        BencodeValue::String(BencodeString::Bytes(b)) => !valid_utf8(b@),
        BencodeValue::Int(i) => i != i64::MIN,
        BencodeValue::List(l) => forall|k: int| 0 <= k < l@.len() ==> parseable(#[trigger] l@[k]),
        BencodeValue::Dict(d) => (forall|k: int|
            0 <= k < d@.len() ==> parseable((#[trigger] d@[k]).1)) && (forall|k1: int, k2: int|
            0 <= k1 < k2 < d@.len() ==> d@[k1].0@ != d@[k2].0@),
    }
}

/// What `from_utf8_lossy` yields on these bytes; it depends on the bytes
/// alone.
pub uninterp spec fn lossy_of(bytes: Seq<u8>) -> Seq<char>;

/// Relies on String::from_utf8_lossy: the result is a function of the bytes,
/// and valid UTF-8 comes through undamaged.
#[verifier::external_body]
pub(crate) fn utf8_lossy(bytes: &Vec<u8>) -> (r: String)
    ensures
        r@ == lossy_of(bytes@),
        valid_utf8(bytes@) ==> r@ == decode_utf8(bytes@),
{
    String::from_utf8_lossy(bytes).to_string()
}

/// Relies on str::from_utf8: `Some` exactly on valid UTF-8, decoding it.
#[verifier::external_body]
pub(crate) fn utf8_to_string(bytes: &Vec<u8>) -> (r: Option<String>)
    ensures
        r is Some <==> valid_utf8(bytes@),
        r is Some ==> r.unwrap()@ == decode_utf8(bytes@),
{
    match core::str::from_utf8(bytes) {
        Ok(s) => Some(s.to_string()),
        Err(_) => None,
    }
}

/// Whether two string slices hold the same text.
pub fn str_eq(a: &str, b: &str) -> (r: bool)
    ensures
        r == (a@ == b@),
{
    let ab = a.as_bytes();
    let bb = b.as_bytes();
    if ab.len() != bb.len() {
        proof {
            if a@ == b@ {
                assert(encode_utf8(a@) == encode_utf8(b@));
            }
        }
        return false;
    }
    let mut i: usize = 0;
    while i < ab.len()
        invariant
            i <= ab@.len(),
            ab@.len() == bb@.len(),
            ab@ == encode_utf8(a@),
            bb@ == encode_utf8(b@),
            forall|q: int| 0 <= q < i ==> ab@[q] == bb@[q],
        decreases ab@.len() - i,
    {
        if ab[i] != bb[i] {
            proof {
                if a@ == b@ {
                    assert(encode_utf8(a@) == encode_utf8(b@));
                }
            }
            return false;
        }
        i = i + 1;
    }
    proof {
        assert(ab@ =~= bb@);
        encode_utf8_decode_utf8(a@);
        encode_utf8_decode_utf8(b@);
    }
    true
}

/// The value under `key`, searching entries front to back.
pub open spec fn dict_get(entries: Seq<(String, BencodeValue)>, key: Seq<char>) -> Option<
    BencodeValue,
>
    decreases entries.len(),
{
    if entries.len() == 0 {
        None
    } else if entries[0].0@ == key {
        Some(entries[0].1)
    } else {
        dict_get(entries.drop_first(), key)
    }
}

/// The index of the first entry with `key`, or the length if none has it.
pub open spec fn dict_find(entries: Seq<(String, BencodeValue)>, key: Seq<char>) -> int
    decreases entries.len(),
{
    if entries.len() == 0 {
        0
    } else if entries[0].0@ == key {
        0
    } else {
        1 + dict_find(entries.drop_first(), key)
    }
}

/// Where the first match sits, `dict_get` yields that entry's value.
proof fn lemma_dict_find(entries: Seq<(String, BencodeValue)>, key: Seq<char>)
    ensures
        0 <= dict_find(entries, key) <= entries.len(),
        dict_find(entries, key) < entries.len() ==> entries[dict_find(entries, key)].0@ == key
            && dict_get(entries, key) == Some(entries[dict_find(entries, key)].1),
        forall|q: int| 0 <= q < dict_find(entries, key) ==> (#[trigger] entries[q]).0@ != key,
        dict_find(entries, key) == entries.len() ==> dict_get(entries, key) is None,
    decreases entries.len(),
{
    if entries.len() > 0 && entries[0].0@ != key {
        lemma_dict_find(entries.drop_first(), key);
        assert forall|q: int| 0 <= q < dict_find(entries, key) implies (
        #[trigger] entries[q]).0@ != key by {
            if q > 0 {
                assert(entries.drop_first()[q - 1] == entries[q]);
            }
        }
    }
}

/// Inserts `key = value`: replaces the value of the first entry already
/// holding the key (keeping that key's own string), else appends.
pub fn dict_insert(entries: &mut Vec<(String, BencodeValue)>, key: String, value: BencodeValue)
    ensures
        ({
            let m = dict_find(old(entries)@, key@);
            if m < old(entries)@.len() {
                final(entries)@ == old(entries)@.update(m, (old(entries)@[m].0, value))
            } else {
                final(entries)@ == old(entries)@.push((key, value))
            }
        }),
{
    proof {
        lemma_dict_find(entries@, key@);
    }
    let mut i: usize = 0;
    while i < entries.len()
        invariant
            i <= entries@.len(),
            entries@ == old(entries)@,
            forall|q: int| 0 <= q < i ==> (#[trigger] entries@[q]).0@ != key@,
        decreases entries@.len() - i,
    {
        if str_eq(entries[i].0.as_str(), key.as_str()) {
            proof {
                lemma_dict_find_at(entries@, key@, i as int);
            }
            entries[i].1 = value;
            assert(final(entries)@ =~= old(entries)@.update(
                i as int,
                (old(entries)@[i as int].0, entries@[i as int].1),
            ));
            return ;
        }
        i = i + 1;
    }
    proof {
        lemma_dict_find_at(entries@, key@, entries@.len() as int);
    }
    entries.push((key, value));
}

/// When everything before `i` misses the key and `i` hits it (or is the
/// end), `i` is the first match.
proof fn lemma_dict_find_at(entries: Seq<(String, BencodeValue)>, key: Seq<char>, i: int)
    requires
        0 <= i <= entries.len(),
        forall|q: int| 0 <= q < i ==> (#[trigger] entries[q]).0@ != key,
        i < entries.len() ==> entries[i].0@ == key,
    ensures
        dict_find(entries, key) == i,
    decreases i,
{
    if entries.len() > 0 {
        if i == 0 {
        } else {
            assert(entries[0].0@ != key);
            assert forall|q: int| 0 <= q < i - 1 implies (#[trigger] entries.drop_first()[
                q
            ]).0@ != key by {
                assert(entries.drop_first()[q] == entries[q + 1]);
            }
            assert(i - 1 < entries.drop_first().len() ==> entries.drop_first()[i - 1].0@ == key);
            lemma_dict_find_at(entries.drop_first(), key, i - 1);
        }
    }
}

/// Looks `key` up among dictionary entries, front to back.
pub fn dict_lookup<'a>(entries: &'a Vec<(String, BencodeValue)>, key: &str) -> (r: Option<
    &'a BencodeValue,
>)
    ensures
        match (r, dict_get(entries@, key@)) {
            (Some(a), Some(b)) => *a == b,
            (None, None) => true,
            _ => false,
        },
{
    proof {
        lemma_dict_find(entries@, key@);
    }
    let mut i: usize = 0;
    while i < entries.len()
        invariant
            i <= entries@.len(),
            forall|q: int| 0 <= q < i ==> (#[trigger] entries@[q]).0@ != key@,
        decreases entries@.len() - i,
    {
        if str_eq(entries[i].0.as_str(), key) {
            proof {
                lemma_dict_find_at(entries@, key@, i as int);
                lemma_dict_find(entries@, key@);
            }
            return Some(&entries[i].1);
        }
        i = i + 1;
    }
    proof {
        lemma_dict_find_at(entries@, key@, entries@.len() as int);
        lemma_dict_find(entries@, key@);
    }
    None
}

impl BencodeValue {
    /// The canonical byte serialization of this value.
    pub fn encode(&self) -> (r: Vec<u8>)
        ensures
            r@ == encoder::spec_encode(*self),
    {
        encoder::encode_bencode(self)
    }

    /// Reads one bencode value off the front of `data`, handing back the
    /// unread remainder: exactly what the reading model says, shape, rest
    /// and rejection reason alike.
    pub fn parse(data: &Vec<u8>) -> (r: Result<(BencodeValue, Vec<u8>), ParseError>)
        requires
            data@.len() < 0x1000000000000000,
        ensures
            r is Ok ==> parser::is_suffix_of(r.unwrap().1@, data@) && r.unwrap().1@.len()
                < data@.len(),
            data@.len() == 0 ==> r is Err,
            match (r, parser::sp_value(data@)) {
                (Ok((v, rest)), Ok((m0, m1))) => model_of(v) == m0 && rest@ == m1,
                (Err(e), Err(m)) => e.message@ == m,
                _ => false,
            },
    {
        parser::parse_bencode(data)
    }

    /// The value under `key` when this value is a dictionary holding it.
    pub fn get_value(&self, key: &str) -> (r: Option<&BencodeValue>)
        ensures
            match *self {
                BencodeValue::Dict(d) => match (r, dict_get(d@, key@)) {
                    (Some(a), Some(b)) => *a == b,
                    (None, None) => true,
                    _ => false,
                },
                _ => r is None,
            },
    {
        match self {
            BencodeValue::Dict(dict) => dict_lookup(dict, key),
            _ => None,
        }
    }
}

} // verus!
