//! The bencode reader.
//!
//! Each function reads one construct off the front of its input and hands
//! back the unread remainder, so readers compose; a malformed construct is
//! reported with the offending text and a reason.

use vstd::arithmetic::div_mod::{lemma_fundamental_div_mod, lemma_mod_bound};

use super::encoder::{
    spec_decimal,
    spec_decimal_i64,
    spec_encode,
    spec_encode_bytes,
    spec_encode_entries,
    spec_encode_items,
};
use vstd::prelude::*;
use vstd::utf8::{decode_utf8, encode_utf8, valid_utf8};

use super::{
    entry_models_of,
    model_dict_find,
    parseable,
    lossy_of,
    model_dict_insert,
    model_of,
    models_of,
    string_model_of,
    utf8_lossy,
    utf8_to_string,
    BencodeModel,
    BencodeString,
    BencodeValue,
    ParseError,
};

verus! {

/// An ASCII decimal digit.
pub open spec fn is_digit(b: u8) -> bool {
    48 <= b <= 57
}

/// The number the decimal digits spell, most significant first.
pub open spec fn digits_val(s: Seq<u8>) -> int
    decreases s.len(),
{
    if s.len() == 0 {
        0
    } else {
        digits_val(s.drop_last()) * 10 + (s.last() - 48)
    }
}

/// The position of the first byte that is not a decimal digit (the length if
/// every byte is one).
pub open spec fn first_nondigit(s: Seq<u8>) -> int
    decreases s.len(),
{
    if s.len() == 0 {
        0
    } else if !is_digit(s[0]) {
        0
    } else {
        1 + first_nondigit(s.drop_first())
    }
}

///`rest` is the tail of `input` that starts where `input` stops being read.
pub open spec fn is_suffix_of(rest: Seq<u8>, input: Seq<u8>) -> bool {
    rest.len() <= input.len() && rest == input.subrange(
        input.len() - rest.len(),
        input.len() as int,
    )
}

/// A suffix of a suffix is a suffix.
proof fn lemma_suffix_trans(a: Seq<u8>, b: Seq<u8>, c: Seq<u8>)
    requires
        is_suffix_of(a, b),
        is_suffix_of(b, c),
    ensures
        is_suffix_of(a, c),
{
    assert(a =~= c.subrange(c.len() - a.len(), c.len() as int));
}

/// When everything before `i` is a digit and `i` is not (or is the end),
/// `i` is the first non-digit.
proof fn lemma_first_nondigit_at(s: Seq<u8>, i: int)
    requires
        0 <= i <= s.len(),
        forall|q: int| 0 <= q < i ==> is_digit(#[trigger] s[q]),
        i < s.len() ==> !is_digit(s[i]),
    ensures
        first_nondigit(s) == i,
    decreases i,
{
    if s.len() > 0 {
        if i == 0 {
        } else {
            assert(is_digit(s[0]));
            assert forall|q: int| 0 <= q < i - 1 implies is_digit(#[trigger] s.drop_first()[q]) by {
                assert(s.drop_first()[q] == s[q + 1]);
            }
            assert(i - 1 < s.drop_first().len() ==> !is_digit(s.drop_first()[i - 1]));
            lemma_first_nondigit_at(s.drop_first(), i - 1);
        }
    }
}

/// One more digit multiplies the value by ten and adds it.
proof fn lemma_digits_extend(s: Seq<u8>, i: int)
    requires
        0 <= i < s.len(),
    ensures
        digits_val(s.take(i + 1)) == digits_val(s.take(i)) * 10 + (s[i] - 48),
{
    assert(s.take(i + 1).drop_last() =~= s.take(i));
    assert(s.take(i + 1).last() == s[i]);
}

/// The value of a digit prefix is never negative.
proof fn lemma_digits_nonneg(s: Seq<u8>, i: int)
    requires
        0 <= i <= s.len(),
        forall|q: int| 0 <= q < i ==> is_digit(#[trigger] s[q]),
    ensures
        digits_val(s.take(i)) >= 0,
    decreases i,
{
    if i > 0 {
        lemma_digits_nonneg(s, i - 1);
        lemma_digits_extend(s, i - 1);
    }
}

/// `a <= (m - d) / 10` says exactly that one more digit keeps the value
/// within `m`.
proof fn lemma_digit_step_bound(a: int, d: int, m: int)
    requires
        a >= 0,
        0 <= d <= 9,
        m >= 9,
    ensures
        (a <= (m - d) / 10) == (a * 10 + d <= m),
{
    lemma_fundamental_div_mod(m - d, 10);
    lemma_mod_bound(m - d, 10);
}

/// Copies the tail of `input` from `start` on.
fn tail_from(input: &Vec<u8>, start: usize) -> (r: Vec<u8>)
    requires
        start <= input@.len(),
    ensures
        r@ == input@.skip(start as int),
{
    let mut r: Vec<u8> = Vec::new();
    let mut i: usize = start;
    while i < input.len()
        invariant
            start <= i <= input@.len(),
            r@ == input@.subrange(start as int, i as int),
        decreases input@.len() - i,
    {
        r.push(input[i]);
        assert(input@.subrange(start as int, i + 1 as int) =~= input@.subrange(
            start as int,
            i as int,
        ).push(input@[i as int]));
        i = i + 1;
    }
    assert(r@ =~= input@.skip(start as int));
    r
}

/// Copies `input[start .. start + count]`.
fn slice_of(input: &Vec<u8>, start: usize, count: usize) -> (r: Vec<u8>)
    requires
        start + count <= input@.len(),
    ensures
        r@ == input@.subrange(start as int, start + count),
{
    let n = input.len();
    let end = start + count;
    let mut r: Vec<u8> = Vec::new();
    let mut i: usize = start;
    while i < end
        invariant
            start <= i <= end,
            end == start + count,
            end <= input@.len(),
            r@ == input@.subrange(start as int, i as int),
        decreases end - i,
    {
        r.push(input[i]);
        assert(input@.subrange(start as int, i + 1 as int) =~= input@.subrange(
            start as int,
            i as int,
        ).push(input@[i as int]));
        i = i + 1;
    }
    r
}

/// What reading a byte string off the front of `input` yields: the string's
/// shape and the remainder, or the reason it is rejected.
pub open spec fn sp_string(input: Seq<u8>) -> Result<(BencodeModel, Seq<u8>), Seq<char>> {
    let p = first_nondigit(input);
    let v = digits_val(input.take(p));
    if p < input.len() && input[p] == 58 && p + 1 + v <= input.len() {
        let seg = input.subrange(p + 1, p + 1 + v);
        Ok(
            (
                if valid_utf8(seg) {
                    BencodeModel::Text(decode_utf8(seg))
                } else {
                    BencodeModel::Bytes(seg)
                },
                input.skip(p + 1 + v),
            ),
        )
    } else if p < input.len() && input[p] != 58 {
        Err("Invalid Bencode String length"@)
    } else {
        Err("Length exceeds input length"@)
    }
}

/// What reading an integer off the front of `input` yields: its value and
/// the remainder, or the reason it is rejected.
pub open spec fn sp_int(input: Seq<u8>) -> Result<(int, Seq<u8>), Seq<char>> {
    if input.len() == 0 || input[0] != 105 {
        Err("Bencode Integer must start with 'i'"@)
    } else {
        let st: int = if input.len() >= 2 && input[1] == 45 {
            2
        } else {
            1
        };
        let neg = st == 2;
        let body = input.skip(st);
        let q = first_nondigit(body);
        let v = digits_val(body.take(q));
        if neg && body.len() > 0 && body[0] == 48 {
            Err("Invalid Bencode Integer"@)
        } else if !neg && body.len() >= 2 && body[0] == 48 && body[1] != 101 {
            Err("Integer cannot be prefixed with 0"@)
        } else if q < body.len() && body[q] == 101 && v <= 0x7fffffffffffffff {
            Ok(
                (
                    if neg {
                        -v
                    } else {
                        v
                    },
                    body.skip(q + 1),
                ),
            )
        } else {
            Err("Could not parse Bencode Integer"@)
        }
    }
}

/// What reading list items up to the closing `e` yields, appended to `acc`.
/// (A value read is always strictly shorter than its input; the guard makes
/// that visible to the recursion.)
pub open spec fn sp_items(
    rest: Seq<u8>,
    acc: Seq<BencodeModel>,
) -> Result<(Seq<BencodeModel>, Seq<u8>), Seq<char>>
    decreases rest.len(), 2int,
{
    if rest.len() == 0 {
        Err("Invalid Bencode List"@)
    } else if rest[0] == 101 {
        Ok((acc, rest.skip(1)))
    } else {
        match sp_value(rest) {
            Err(m) => Err(m),
            Ok((vm, vrest)) => if vrest.len() < rest.len() {
                sp_items(vrest, acc.push(vm))
            } else {
                Err("Invalid Bencode List"@)
            },
        }
    }
}

/// What reading dictionary entries up to the closing `e` yields, inserting
/// into `acc` with replace-on-duplicate; a key that is not UTF-8 is kept by
/// its lossy decoding.
pub open spec fn sp_entries(
    rest: Seq<u8>,
    acc: Seq<(Seq<char>, BencodeModel)>,
) -> Result<(Seq<(Seq<char>, BencodeModel)>, Seq<u8>), Seq<char>>
    decreases rest.len(), 2int,
{
    if rest.len() == 0 {
        Err("Invalid Bencode Dict"@)
    } else if rest[0] == 101 {
        Ok((acc, rest.skip(1)))
    } else {
        match sp_string(rest) {
            Err(m) => Err(m),
            Ok((km, krest)) => if krest.len() <= rest.len() {
                let key = match km {
                    BencodeModel::Text(s) => s,
                    BencodeModel::Bytes(b) => lossy_of(b),
                    // A string read yields only the two shapes above.
                    _ => Seq::<char>::empty(),
                };
                match sp_value(krest) {
                    Err(m) => Err(m),
                    Ok((vm, vrest)) => if vrest.len() < rest.len() {
                        sp_entries(vrest, model_dict_insert(acc, key, vm))
                    } else {
                        Err("Invalid Bencode Dict"@)
                    },
                }
            } else {
                Err("Invalid Bencode Dict"@)
            },
        }
    }
}

/// What reading one bencode value off the front of `input` yields: its
/// shape and the remainder, or the reason it is rejected.
pub open spec fn sp_value(input: Seq<u8>) -> Result<(BencodeModel, Seq<u8>), Seq<char>>
    decreases input.len(), 1int,
{
    if input.len() == 0 {
        Err("Invalid Bencode Value"@)
    } else if input[0] == 105 {
        match sp_int(input) {
            Ok((n, rest)) => Ok((BencodeModel::Int(n), rest)),
            Err(m) => Err(m),
        }
    } else if input[0] == 108 {
        match sp_items(input.skip(1), Seq::<BencodeModel>::empty()) {
            Ok((items, rest)) => Ok((BencodeModel::List(items), rest)),
            Err(m) => Err(m),
        }
    } else if input[0] == 100 {
        match sp_entries(input.skip(1), Seq::<(Seq<char>, BencodeModel)>::empty()) {
            Ok((entries, rest)) => Ok((BencodeModel::Dict(entries), rest)),
            Err(m) => Err(m),
        }
    } else {
        sp_string(input)
    }
}

/// What reading a whole list yields: the wrong first byte is rejected, else
/// the items.
pub open spec fn sp_list(input: Seq<u8>) -> Result<(Seq<BencodeModel>, Seq<u8>), Seq<char>> {
    if input.len() == 0 || input[0] != 108 {
        Err("Bencode List must start with 'l'"@)
    } else {
        sp_items(input.skip(1), Seq::<BencodeModel>::empty())
    }
}

/// What reading a whole dictionary yields: the wrong first byte is
/// rejected, else the entries.
pub open spec fn sp_dict(input: Seq<u8>) -> Result<
    (Seq<(Seq<char>, BencodeModel)>, Seq<u8>),
    Seq<char>,
> {
    if input.len() == 0 || input[0] != 100 {
        Err("Bencode Dict must start with 'd'"@)
    } else {
        sp_entries(input.skip(1), Seq::<(Seq<char>, BencodeModel)>::empty())
    }
}

/// Reads `<decimal length>:<bytes>`: text when the bytes decode as UTF-8,
/// raw bytes otherwise.  A non-digit before the colon, or a length past the
/// end of the input, is rejected with the matching reason.
pub fn parse_string(input: &Vec<u8>) -> (r: Result<(BencodeString, Vec<u8>), ParseError>)
    requires
        input@.len() < 0x1000000000000000,
    ensures
        ({
            let p = first_nondigit(input@);
            let v = digits_val(input@.take(p));
            &&& (p < input@.len() && input@[p] == 58 && p + 1 + v <= input@.len()) ==> r is Ok && ({
                let seg = input@.subrange(p + 1, p + 1 + v);
                &&& r.unwrap().1@ == input@.skip(p + 1 + v)
                &&& is_suffix_of(r.unwrap().1@, input@)
                &&& match r.unwrap().0 {
                    BencodeString::String(s) => valid_utf8(seg) && s@ == decode_utf8(seg),
                    BencodeString::Bytes(b) => !valid_utf8(seg) && b@ == seg,
                }
            })
            &&& (p < input@.len() && input@[p] != 58) ==> r is Err && r.unwrap_err().message@
                == "Invalid Bencode String length"@ && r.unwrap_err().value@ == lossy_of(input@)
            &&& (p == input@.len() || (p < input@.len() && input@[p] == 58 && p + 1 + v
                > input@.len())) ==> r is Err && r.unwrap_err().message@
                == "Length exceeds input length"@ && r.unwrap_err().value@ == lossy_of(input@)
        }),
        r is Ok ==> is_suffix_of(r.unwrap().1@, input@) && r.unwrap().1@.len() < input@.len(),
        match (r, sp_string(input@)) {
            (Ok((bs, rest)), Ok((m0, m1))) => string_model_of(bs) == m0 && rest@ == m1,
            (Err(e), Err(m)) => e.message@ == m,
            _ => false,
        },
{
    let n = input.len();
    let mut length: u64 = 0;
    let mut i: usize = 0;
    while i < n
        invariant
            i <= n,
            n == input@.len(),
            n < 0x1000000000000000,
            forall|q: int| 0 <= q < i ==> is_digit(#[trigger] input@[q]),
            ({
                let dv = digits_val(input@.take(i as int));
                if dv <= n {
                    length == dv
                } else {
                    length == n + 1
                }
            }),
            length <= n + 1,
        decreases n - i,
    {
        let b = input[i];
        proof {
            lemma_digits_nonneg(input@, i as int);
            lemma_digits_extend(input@, i as int);
        }
        if b == 58 {
            proof {
                lemma_first_nondigit_at(input@, i as int);
            }
            if (i as u64) + 1 + length > n as u64 {
                return Err(
                    ParseError {
                        value: utf8_lossy(input),
                        message: "Length exceeds input length".to_owned(),
                    },
                );
            }
            let lu = length as usize;
            let seg = slice_of(input, i + 1, lu);
            let rest = tail_from(input, i + 1 + lu);
            let bs = match utf8_to_string(&seg) {
                Some(s) => BencodeString::String(s),
                None => BencodeString::Bytes(seg),
            };
            proof {
                assert(rest@ =~= input@.subrange(
                    input@.len() - rest@.len(),
                    input@.len() as int,
                ));
            }
            return Ok((bs, rest));
        }
        if b < 48 || b > 57 {
            proof {
                lemma_first_nondigit_at(input@, i as int);
            }
            return Err(
                ParseError {
                    value: utf8_lossy(input),
                    message: "Invalid Bencode String length".to_owned(),
                },
            );
        }
        let d = (b - 48) as u64;
        if length > n as u64 || length * 10 + d > n as u64 {
            length = n as u64 + 1;
        } else {
            length = length * 10 + d;
        }
        i = i + 1;
    }
    proof {
        lemma_first_nondigit_at(input@, n as int);
        lemma_digits_nonneg(input@, n as int);
    }
    Err(ParseError { value: utf8_lossy(input), message: "Length exceeds input length".to_owned() })
}

/// Reads `i<decimal>e`, an optional minus sign leading the digits.  A
/// missing `i`, a zero-prefixed or bare-minus-zero number, a non-digit, an
/// unterminated number, or one past `i64` range is rejected with the
/// matching reason.
pub fn parse_int(input: &Vec<u8>) -> (r: Result<(i64, Vec<u8>), ParseError>)
    ensures
        (input@.len() == 0 || input@[0] != 105) ==> r is Err && r.unwrap_err().message@
            == "Bencode Integer must start with 'i'"@ && r.unwrap_err().value@ == lossy_of(input@),
        (input@.len() > 0 && input@[0] == 105) ==> ({
            let st: int = if input@.len() >= 2 && input@[1] == 45 {
                2
            } else {
                1
            };
            let neg = st == 2;
            let body = input@.skip(st);
            let q = first_nondigit(body);
            let v = digits_val(body.take(q));
            if neg && body.len() > 0 && body[0] == 48 {
                r is Err && r.unwrap_err().message@ == "Invalid Bencode Integer"@
                    && r.unwrap_err().value@ == lossy_of(input@)
            } else if !neg && body.len() >= 2 && body[0] == 48 && body[1] != 101 {
                r is Err && r.unwrap_err().message@ == "Integer cannot be prefixed with 0"@
                    && r.unwrap_err().value@ == lossy_of(input@)
            } else if q < body.len() && body[q] == 101 && v <= 0x7fffffffffffffff {
                r is Ok && r.unwrap().0 == (if neg {
                    -v
                } else {
                    v
                }) && r.unwrap().1@ == body.skip(q + 1) && is_suffix_of(r.unwrap().1@, input@)
            } else {
                r is Err && r.unwrap_err().message@ == "Could not parse Bencode Integer"@
                    && r.unwrap_err().value@ == lossy_of(input@)
            }
        }),
        r is Ok ==> is_suffix_of(r.unwrap().1@, input@) && r.unwrap().1@.len() < input@.len(),
        match (r, sp_int(input@)) {
            (Ok((n, rest)), Ok((m0, m1))) => n as int == m0 && rest@ == m1,
            (Err(e), Err(m)) => e.message@ == m,
            _ => false,
        },
{
    if input.len() == 0 || input[0] != 105 {
        return Err(
            ParseError {
                value: utf8_lossy(input),
                message: "Bencode Integer must start with 'i'".to_owned(),
            },
        );
    }
    let neg = input.len() >= 2 && input[1] == 45;
    let st: usize = if neg {
        2
    } else {
        1
    };
    let ghost body = input@.skip(st as int);
    if st < input.len() && input[st] == 48 {
        if neg {
            return Err(
                ParseError { value: utf8_lossy(input), message: "Invalid Bencode Integer".to_owned() },
            );
        }
        if st + 1 < input.len() && input[st + 1] != 101 {
            return Err(
                ParseError {
                    value: utf8_lossy(input),
                    message: "Integer cannot be prefixed with 0".to_owned(),
                },
            );
        }
    }
    let mut mag: u64 = 0;
    let mut i: usize = st;
    while i < input.len()
        invariant
            st <= i <= input@.len(),
            st == (if input@.len() >= 2 && input@[1] == 45 {
                2int
            } else {
                1int
            }),
            neg == (st == 2),
            input@.len() > 0 && input@[0] == 105,
            body == input@.skip(st as int),
            !(neg && body.len() > 0 && body[0] == 48),
            !(!neg && body.len() >= 2 && body[0] == 48 && body[1] != 101),
            forall|q: int| 0 <= q < i - st ==> is_digit(#[trigger] body[q]),
            ({
                let dv = digits_val(body.take(i - st));
                if dv <= 0x7fffffffffffffff {
                    mag == dv
                } else {
                    mag == 0x8000000000000000u64
                }
            }),
            mag <= 0x8000000000000000u64,
        decreases input@.len() - i,
    {
        let b = input[i];
        assert(body[i - st] == b);
        proof {
            lemma_digits_nonneg(body, i - st);
            lemma_digits_extend(body, i - st);
        }
        if b == 101 {
            proof {
                lemma_first_nondigit_at(body, i - st);
            }
            if mag > 0x7fffffffffffffff {
                return Err(
                    ParseError {
                        value: utf8_lossy(input),
                        message: "Could not parse Bencode Integer".to_owned(),
                    },
                );
            }
            let v = mag as i64;
            let val: i64 = if neg {
                -v
            } else {
                v
            };
            let rest = tail_from(input, i + 1);
            proof {
                assert(rest@ =~= body.skip(i - st + 1));
                assert(rest@ =~= input@.subrange(
                    input@.len() - rest@.len(),
                    input@.len() as int,
                ));
            }
            return Ok((val, rest));
        }
        if b < 48 || b > 57 {
            proof {
                lemma_first_nondigit_at(body, i - st);
            }
            return Err(
                ParseError {
                    value: utf8_lossy(input),
                    message: "Could not parse Bencode Integer".to_owned(),
                },
            );
        }
        let d = (b - 48) as u64;
        proof {
            lemma_digit_step_bound(mag as int, d as int, 0x7fffffffffffffff);
        }
        if mag > (9223372036854775807u64 - d) / 10 {
            mag = 9223372036854775808u64;
        } else {
            mag = mag * 10 + d;
        }
        i = i + 1;
    }
    proof {
        lemma_first_nondigit_at(body, input@.len() - st);
        assert(body.len() == input@.len() - st);
    }
    Err(ParseError { value: utf8_lossy(input), message: "Could not parse Bencode Integer".to_owned() })
}

/// Reads `l<items>e`.  Anything else at the front, or input that ends before
/// the closing `e`, is rejected with the matching reason.
pub fn parse_list(input: &Vec<u8>) -> (r: Result<(Vec<BencodeValue>, Vec<u8>), ParseError>)
    requires
        input@.len() < 0x1000000000000000,
    ensures
        (input@.len() == 0 || input@[0] != 108) ==> r is Err && r.unwrap_err().message@
            == "Bencode List must start with 'l'"@ && r.unwrap_err().value@ == lossy_of(input@),
        r is Ok ==> is_suffix_of(r.unwrap().1@, input@) && r.unwrap().1@.len() < input@.len(),
        match (r, sp_list(input@)) {
            (Ok((l, rest)), Ok((items, mrest))) => models_of(l@) == items && rest@ == mrest,
            (Err(e), Err(m)) => e.message@ == m,
            _ => false,
        },
    decreases input@.len(), 0int,
{
    if input.len() == 0 || input[0] != 108 {
        return Err(
            ParseError {
                value: utf8_lossy(input),
                message: "Bencode List must start with 'l'".to_owned(),
            },
        );
    }
    let mut rest = tail_from(input, 1);
    proof {
        assert(is_suffix_of(rest@, input@));
    }
    let mut list: Vec<BencodeValue> = Vec::new();
    while rest.len() > 0
        invariant
            input@.len() < 0x1000000000000000,
            input@.len() > 0 && input@[0] == 108,
            is_suffix_of(rest@, input@),
            rest@.len() < input@.len(),
            sp_items(input@.skip(1), Seq::<BencodeModel>::empty()) == sp_items(
                rest@,
                models_of(list@),
            ),
        decreases rest@.len(),
    {
        if rest[0] == 101 {
            let after = tail_from(&rest, 1);
            proof {
                assert(is_suffix_of(after@, rest@));
                lemma_suffix_trans(after@, rest@, input@);
                assert(sp_items(rest@, models_of(list@)) == Ok::<
                    (Seq<BencodeModel>, Seq<u8>),
                    Seq<char>,
                >((models_of(list@), rest@.skip(1))));
            }
            return Ok((list, after));
        }
        let parsed = match parse_bencode(&rest) {
            Ok(p) => p,
            Err(e) => {
                proof {
                    assert(sp_value(rest@) == Err::<(BencodeModel, Seq<u8>), Seq<char>>(
                        e.message@,
                    ));
                    assert(sp_items(rest@, models_of(list@)) == Err::<
                        (Seq<BencodeModel>, Seq<u8>),
                        Seq<char>,
                    >(e.message@));
                }
                return Err(e);
            },
        };
        let (value, updated_rest) = parsed;
        proof {
            lemma_suffix_trans(updated_rest@, rest@, input@);
            assert(sp_value(rest@) == Ok::<(BencodeModel, Seq<u8>), Seq<char>>(
                (model_of(value), updated_rest@),
            ));
            assert(sp_items(rest@, models_of(list@)) == sp_items(
                updated_rest@,
                models_of(list@).push(model_of(value)),
            ));
            lemma_models_of_push(list@, value);
        }
        rest = updated_rest;
        list.push(value);
    }
    Err(ParseError { value: utf8_lossy(input), message: "Invalid Bencode List".to_owned() })
}

/// One more item's shape goes on the end.
proof fn lemma_models_of_push(l: Seq<BencodeValue>, v: BencodeValue)
    ensures
        models_of(l.push(v)) == models_of(l).push(model_of(v)),
{
    super::lemma_models_of(l);
    super::lemma_models_of(l.push(v));
    assert(models_of(l.push(v)) =~= models_of(l).push(model_of(v)));
}

/// Reads `d<key value pairs>e`, each key a bencode string; a key that is not
/// UTF-8 is kept by its lossy decoding.  Anything else at the front, or
/// input that ends before the closing `e`, is rejected with the matching
/// reason.
pub fn parse_dict(input: &Vec<u8>) -> (r: Result<
    (Vec<(String, BencodeValue)>, Vec<u8>),
    ParseError,
>)
    requires
        input@.len() < 0x1000000000000000,
    ensures
        (input@.len() == 0 || input@[0] != 100) ==> r is Err && r.unwrap_err().message@
            == "Bencode Dict must start with 'd'"@ && r.unwrap_err().value@ == lossy_of(input@),
        r is Ok ==> is_suffix_of(r.unwrap().1@, input@) && r.unwrap().1@.len() < input@.len(),
        match (r, sp_dict(input@)) {
            (Ok((d, rest)), Ok((entries, mrest))) => entry_models_of(d@) == entries && rest@
                == mrest,
            (Err(e), Err(m)) => e.message@ == m,
            _ => false,
        },
    decreases input@.len(), 0int,
{
    if input.len() == 0 || input[0] != 100 {
        return Err(
            ParseError {
                value: utf8_lossy(input),
                message: "Bencode Dict must start with 'd'".to_owned(),
            },
        );
    }
    let mut rest = tail_from(input, 1);
    proof {
        assert(is_suffix_of(rest@, input@));
    }
    let mut dict: Vec<(String, BencodeValue)> = Vec::new();
    proof {
        assert(entry_models_of(dict@) =~= Seq::<(Seq<char>, BencodeModel)>::empty());
    }
    while rest.len() > 0
        invariant
            input@.len() < 0x1000000000000000,
            input@.len() > 0 && input@[0] == 100,
            is_suffix_of(rest@, input@),
            rest@.len() < input@.len(),
            sp_entries(input@.skip(1), Seq::<(Seq<char>, BencodeModel)>::empty()) == sp_entries(
                rest@,
                entry_models_of(dict@),
            ),
        decreases rest@.len(),
    {
        if rest[0] == 101 {
            let after = tail_from(&rest, 1);
            proof {
                assert(is_suffix_of(after@, rest@));
                lemma_suffix_trans(after@, rest@, input@);
                assert(sp_entries(rest@, entry_models_of(dict@)) == Ok::<
                    (Seq<(Seq<char>, BencodeModel)>, Seq<u8>),
                    Seq<char>,
                >((entry_models_of(dict@), rest@.skip(1))));
            }
            return Ok((dict, after));
        }
        let parsed_key = match parse_string(&rest) {
            Ok(p) => p,
            Err(e) => {
                proof {
                    assert(sp_string(rest@) == Err::<(BencodeModel, Seq<u8>), Seq<char>>(
                        e.message@,
                    ));
                    assert(sp_entries(rest@, entry_models_of(dict@)) == Err::<
                        (Seq<(Seq<char>, BencodeModel)>, Seq<u8>),
                        Seq<char>,
                    >(e.message@));
                }
                return Err(e);
            },
        };
        let (key, key_rest) = parsed_key;
        let ghost km = string_model_of(key);
        let ghost keyv = match km {
            BencodeModel::Text(sq) => sq,
            BencodeModel::Bytes(bq) => lossy_of(bq),
            _ => Seq::<char>::empty(),
        };
        let parsed_value = match parse_bencode(&key_rest) {
            Ok(p) => p,
            Err(e) => {
                proof {
                    assert(sp_string(rest@) == Ok::<(BencodeModel, Seq<u8>), Seq<char>>(
                        (km, key_rest@),
                    ));
                    assert(sp_value(key_rest@) == Err::<(BencodeModel, Seq<u8>), Seq<char>>(
                        e.message@,
                    ));
                    assert(sp_entries(rest@, entry_models_of(dict@)) == Err::<
                        (Seq<(Seq<char>, BencodeModel)>, Seq<u8>),
                        Seq<char>,
                    >(e.message@));
                }
                return Err(e);
            },
        };
        let (value, updated_rest) = parsed_value;
        proof {
            lemma_suffix_trans(updated_rest@, key_rest@, rest@);
            lemma_suffix_trans(updated_rest@, rest@, input@);
            assert(sp_string(rest@) == Ok::<(BencodeModel, Seq<u8>), Seq<char>>((km, key_rest@)));
            assert(sp_value(key_rest@) == Ok::<(BencodeModel, Seq<u8>), Seq<char>>(
                (model_of(value), updated_rest@),
            ));
            assert(sp_entries(rest@, entry_models_of(dict@)) == sp_entries(
                updated_rest@,
                model_dict_insert(entry_models_of(dict@), keyv, model_of(value)),
            ));
        }
        let key_text = match key {
            BencodeString::String(s) => s,
            BencodeString::Bytes(b) => crate::bencode::utf8_lossy(&b),
        };
        assert(key_text@ == keyv);
        let ghost dict_before = dict@;
        let ghost value_model = model_of(value);
        super::dict_insert(&mut dict, key_text, value);
        proof {
            super::lemma_dict_find(dict_before, keyv);
            if super::dict_find(dict_before, keyv) < dict_before.len() {
                super::lemma_entry_models_insert(dict_before, dict@, keyv, value);
            } else {
                assert(dict@ == dict_before.push((dict@[dict_before.len() as int].0, value)));
                assert(dict@[dict_before.len() as int].0@ == keyv);
                super::lemma_entry_models_insert(dict_before, dict@, keyv, value);
            }
            assert(entry_models_of(dict@) == model_dict_insert(
                entry_models_of(dict_before),
                keyv,
                value_model,
            ));
        }
        rest = updated_rest;
    }
    Err(ParseError { value: utf8_lossy(input), message: "Invalid Bencode Dict".to_owned() })
}


/// Reads one bencode value, dispatching on the first byte: `i` an integer,
/// `l` a list, `d` a dictionary, anything else a string.  Empty input is
/// rejected.
pub fn parse_bencode(input: &Vec<u8>) -> (r: Result<(BencodeValue, Vec<u8>), ParseError>)
    requires
        input@.len() < 0x1000000000000000,
    ensures
        input@.len() == 0 ==> r is Err && r.unwrap_err().message@ == "Invalid Bencode Value"@,
        r is Ok ==> is_suffix_of(r.unwrap().1@, input@) && r.unwrap().1@.len() < input@.len(),
        r is Ok && input@.len() > 0 ==> match r.unwrap().0 {
            BencodeValue::Int(_) => input@[0] == 105,
            BencodeValue::List(_) => input@[0] == 108,
            BencodeValue::Dict(_) => input@[0] == 100,
            BencodeValue::String(_) => input@[0] != 105 && input@[0] != 108 && input@[0] != 100,
        },
        match (r, sp_value(input@)) {
            (Ok((v, rest)), Ok((m0, m1))) => model_of(v) == m0 && rest@ == m1,
            (Err(e), Err(m)) => e.message@ == m,
            _ => false,
        },
    decreases input@.len(), 1int,
{
    if input.len() == 0 {
        return Err(
            ParseError { value: utf8_lossy(input), message: "Invalid Bencode Value".to_owned() },
        );
    }
    let b = input[0];
    if b == 105 {
        let parsed = parse_int(input)?;
        let (num, rest) = parsed;
        Ok((BencodeValue::Int(num), rest))
    } else if b == 108 {
        let parsed = parse_list(input)?;
        let (list, rest) = parsed;
        proof {
            assert(sp_list(input@) == sp_items(
                input@.skip(1),
                Seq::<BencodeModel>::empty(),
            ));
        }
        Ok((BencodeValue::List(list), rest))
    } else if b == 100 {
        let parsed = parse_dict(input)?;
        let (dict, rest) = parsed;
        proof {
            assert(sp_dict(input@) == sp_entries(
                input@.skip(1),
                Seq::<(Seq<char>, BencodeModel)>::empty(),
            ));
        }
        Ok((BencodeValue::Dict(dict), rest))
    } else {
        let parsed = parse_string(input)?;
        let (string, rest) = parsed;
        Ok((BencodeValue::String(string), rest))
    }
}


/// The decimal digits of a nonnegative number: at least one, all digits,
/// spelling the number back, and starting with a zero only for zero itself.
proof fn lemma_decimal_digits(n: int)
    requires
        n >= 0,
    ensures
        spec_decimal(n).len() >= 1,
        forall|i: int| 0 <= i < spec_decimal(n).len() ==> is_digit(#[trigger] spec_decimal(n)[i]),
        digits_val(spec_decimal(n)) == n,
        (spec_decimal(n)[0] == 48) == (n == 0),
    decreases n,
{
    if n < 10 {
        assert(spec_decimal(n) =~= seq![(48 + n) as u8]);
        assert(seq![(48 + n) as u8].drop_last() =~= Seq::<u8>::empty());
        assert(seq![(48 + n) as u8].last() == (48 + n) as u8);
        assert(digits_val(seq![(48 + n) as u8]) == digits_val(
            Seq::<u8>::empty(),
        ) * 10 + (48 + n - 48));
    } else {
        lemma_decimal_digits(n / 10);
        lemma_fundamental_div_mod(n, 10);
        lemma_mod_bound(n, 10);
        let head = spec_decimal(n / 10);
        let d = (48 + n % 10) as u8;
        assert(spec_decimal(n) == head.push(d));
        assert forall|i: int| 0 <= i < spec_decimal(n).len() implies is_digit(
            #[trigger] spec_decimal(n)[i],
        ) by {
            if i < head.len() {
                assert(spec_decimal(n)[i] == head[i]);
            } else {
                assert(spec_decimal(n)[i] == d);
            }
        }
        assert(head.push(d).drop_last() =~= head);
        assert(head.push(d).last() == d);
        assert(digits_val(head.push(d)) == digits_val(head) * 10 + (d - 48));
        assert(spec_decimal(n)[0] == head[0]);
    }
}

/// Reading a serialized byte string back yields the bytes (as text when
/// they decode as UTF-8) and exactly the trailing bytes.
proof fn lemma_string_roundtrip(bytes: Seq<u8>, tail: Seq<u8>)
    ensures
        sp_string(spec_encode_bytes(bytes) + tail) == Ok::<(BencodeModel, Seq<u8>), Seq<char>>(
            (
                if valid_utf8(bytes) {
                    BencodeModel::Text(decode_utf8(bytes))
                } else {
                    BencodeModel::Bytes(bytes)
                },
                tail,
            ),
        ),
        spec_encode_bytes(bytes).len() >= 2,
        is_digit((spec_encode_bytes(bytes) + tail)[0]),
{
    let dec = spec_decimal(bytes.len() as int);
    let input = spec_encode_bytes(bytes) + tail;
    lemma_decimal_digits(bytes.len() as int);
    assert forall|q: int| 0 <= q < dec.len() implies is_digit(#[trigger] input[q]) by {
        assert(input[q] == dec[q]);
    }
    assert(input[dec.len() as int] == 58);
    lemma_first_nondigit_at(input, dec.len() as int);
    assert(input.take(dec.len() as int) =~= dec);
    let p = dec.len() as int;
    let v = bytes.len() as int;
    assert(input.subrange(p + 1, p + 1 + v) =~= bytes);
    assert(input.skip(p + 1 + v) =~= tail);
}


/// A key held by no accumulated entry is not found among them.
proof fn lemma_model_find_absent(entries: Seq<(Seq<char>, BencodeModel)>, key: Seq<char>)
    requires
        forall|a: int| 0 <= a < entries.len() ==> (#[trigger] entries[a]).0 != key,
    ensures
        model_dict_find(entries, key) == entries.len(),
    decreases entries.len(),
{
    if entries.len() > 0 {
        assert(entries[0].0 != key);
        assert forall|a: int| 0 <= a < entries.drop_first().len() implies (
        #[trigger] entries.drop_first()[a]).0 != key by {
            assert(entries.drop_first()[a] == entries[a + 1]);
        }
        lemma_model_find_absent(entries.drop_first(), key);
    }
}

/// A serialization is never empty and never starts with the closing byte.
proof fn lemma_encode_head(v: BencodeValue)
    ensures
        spec_encode(v).len() > 0,
        spec_encode(v)[0] != 101,
{
    match v {
        BencodeValue::String(BencodeString::String(s)) => {
            lemma_decimal_digits(encode_utf8(s@).len() as int);
            assert(spec_encode(v)[0] == spec_decimal(encode_utf8(s@).len() as int)[0]);
        },
        BencodeValue::String(BencodeString::Bytes(b)) => {
            lemma_decimal_digits(b@.len() as int);
            assert(spec_encode(v)[0] == spec_decimal(b@.len() as int)[0]);
        },
        BencodeValue::Int(_) => {
            assert(spec_encode(v)[0] == 105);
        },
        BencodeValue::List(_) => {
            assert(spec_encode(v)[0] == 108);
        },
        BencodeValue::Dict(_) => {
            assert(spec_encode(v)[0] == 100);
        },
    }
}

/// Reading back a serialized integer consumes exactly it.
proof fn lemma_int_roundtrip(i: i64, tail: Seq<u8>)
    requires
        i != i64::MIN,
    ensures
        sp_int(seq![105u8] + spec_decimal_i64(i as int) + seq![101u8] + tail) == Ok::<
            (int, Seq<u8>),
            Seq<char>,
        >((i as int, tail)),
{
    let input = seq![105u8] + spec_decimal_i64(i as int) + seq![101u8] + tail;
    if i >= 0 {
        let dec = spec_decimal(i as int);
        lemma_decimal_digits(i as int);
        assert(spec_decimal_i64(i as int) == dec);
        assert(input[0] == 105);
        assert(input[1] == dec[0]);
        assert(is_digit(dec[0]));
        assert(input[1] != 45);
        let body = input.skip(1);
        assert(body =~= dec + seq![101u8] + tail);
        if i == 0 {
            assert(dec =~= seq![48u8]);
            assert(body[1] == 101);
        } else {
            assert(body[0] != 48);
        }
        assert forall|q: int| 0 <= q < dec.len() implies is_digit(#[trigger] body[q]) by {
            assert(body[q] == dec[q]);
        }
        assert(body[dec.len() as int] == 101);
        lemma_first_nondigit_at(body, dec.len() as int);
        assert(body.take(dec.len() as int) =~= dec);
        assert(body.skip(dec.len() as int + 1) =~= tail);
    } else {
        let m = -(i as int);
        let dec = spec_decimal(m);
        lemma_decimal_digits(m);
        assert(spec_decimal_i64(i as int) == seq![45u8] + dec);
        assert(input[0] == 105);
        assert(input[1] == 45);
        let body = input.skip(2);
        assert(body =~= dec + seq![101u8] + tail);
        assert(body[0] == dec[0]);
        assert(body[0] != 48);
        assert forall|q: int| 0 <= q < dec.len() implies is_digit(#[trigger] body[q]) by {
            assert(body[q] == dec[q]);
        }
        assert(body[dec.len() as int] == 101);
        lemma_first_nondigit_at(body, dec.len() as int);
        assert(body.take(dec.len() as int) =~= dec);
        assert(body.skip(dec.len() as int + 1) =~= tail);
    }
}

/// Reading back serialized list items consumes them up to the closing byte.
proof fn lemma_items_roundtrip(l: Seq<BencodeValue>, acc: Seq<BencodeModel>, tail: Seq<u8>)
    requires
        forall|k: int| 0 <= k < l.len() ==> parseable(#[trigger] l[k]),
    ensures
        sp_items(spec_encode_items(l) + seq![101u8] + tail, acc) == Ok::<
            (Seq<BencodeModel>, Seq<u8>),
            Seq<char>,
        >((acc + models_of(l), tail)),
    decreases l,
{
    let input = spec_encode_items(l) + seq![101u8] + tail;
    if l.len() == 0 {
        assert(spec_encode_items(l) =~= Seq::<u8>::empty());
        assert(input[0] == 101);
        assert(input.skip(1) =~= tail);
        assert(acc + models_of(l) =~= acc);
    } else {
        let e0 = spec_encode(l[0]);
        let tail1 = spec_encode_items(l.drop_first()) + seq![101u8] + tail;
        assert(input =~= e0 + tail1);
        lemma_encode_head(l[0]);
        assert(input[0] == e0[0]);
        assert(input[0] != 101);
        lemma_parse_inverts_encode(l[0], tail1);
        assert(sp_value(input) == Ok::<(BencodeModel, Seq<u8>), Seq<char>>(
            (model_of(l[0]), tail1),
        ));
        assert(tail1.len() < input.len());
        assert forall|k: int| 0 <= k < l.drop_first().len() implies parseable(
            #[trigger] l.drop_first()[k],
        ) by {
            assert(l.drop_first()[k] == l[k + 1]);
        }
        lemma_items_roundtrip(l.drop_first(), acc.push(model_of(l[0])), tail);
        assert(acc + models_of(l) =~= acc.push(model_of(l[0])) + models_of(l.drop_first()));
    }
}

/// Reading back serialized dictionary entries consumes them up to the
/// closing byte, inserting each in turn.
proof fn lemma_entries_roundtrip(
    d: Seq<(String, BencodeValue)>,
    acc: Seq<(Seq<char>, BencodeModel)>,
    tail: Seq<u8>,
)
    requires
        forall|k: int| 0 <= k < d.len() ==> parseable((#[trigger] d[k]).1),
        forall|k1: int, k2: int| 0 <= k1 < k2 < d.len() ==> d[k1].0@ != d[k2].0@,
        forall|a: int, k: int|
            0 <= a < acc.len() && 0 <= k < d.len() ==> (#[trigger] acc[a]).0 != (
            #[trigger] d[k]).0@,
    ensures
        sp_entries(spec_encode_entries(d) + seq![101u8] + tail, acc) == Ok::<
            (Seq<(Seq<char>, BencodeModel)>, Seq<u8>),
            Seq<char>,
        >((acc + entry_models_of(d), tail)),
    decreases d,
{
    let input = spec_encode_entries(d) + seq![101u8] + tail;
    if d.len() == 0 {
        assert(spec_encode_entries(d) =~= Seq::<u8>::empty());
        assert(input[0] == 101);
        assert(input.skip(1) =~= tail);
        assert(acc + entry_models_of(d) =~= acc);
    } else {
        let key = d[0].0;
        let val = d[0].1;
        let kb = encode_utf8(key@);
        let tail2 = spec_encode_entries(d.drop_first()) + seq![101u8] + tail;
        let tail1 = spec_encode(val) + tail2;
        assert(input =~= spec_encode_bytes(kb) + tail1);
        lemma_string_roundtrip(kb, tail1);
        vstd::utf8::encode_utf8_valid_utf8(key@);
        vstd::utf8::encode_utf8_decode_utf8(key@);
        assert(sp_string(input) == Ok::<(BencodeModel, Seq<u8>), Seq<char>>(
            (BencodeModel::Text(key@), tail1),
        ));
        assert(is_digit(input[0]));
        assert(input[0] != 101);
        assert(tail1.len() <= input.len());
        lemma_encode_head(val);
        assert(tail1 =~= spec_encode(val) + tail2);
        lemma_parse_inverts_encode(val, tail2);
        assert(sp_value(tail1) == Ok::<(BencodeModel, Seq<u8>), Seq<char>>(
            (model_of(val), tail2),
        ));
        assert(tail2.len() < input.len());
        assert forall|a: int| 0 <= a < acc.len() implies (#[trigger] acc[a]).0 != key@ by {
            assert(acc[a].0 != d[0].0@);
        }
        lemma_model_find_absent(acc, key@);
        let acc2 = acc.push((key@, model_of(val)));
        assert(model_dict_insert(acc, key@, model_of(val)) == acc2);
        assert forall|k: int| 0 <= k < d.drop_first().len() implies parseable(
            (#[trigger] d.drop_first()[k]).1,
        ) by {
            assert(d.drop_first()[k] == d[k + 1]);
        }
        assert forall|k1: int, k2: int|
            0 <= k1 < k2 < d.drop_first().len() implies d.drop_first()[k1].0@ != d.drop_first()[
            k2
        ].0@ by {
            assert(d.drop_first()[k1] == d[k1 + 1]);
            assert(d.drop_first()[k2] == d[k2 + 1]);
        }
        assert forall|a: int, k: int|
            0 <= a < acc2.len() && 0 <= k < d.drop_first().len() implies (#[trigger] acc2[a]).0
            != (#[trigger] d.drop_first()[k]).0@ by {
            assert(d.drop_first()[k] == d[k + 1]);
            if a < acc.len() {
                assert(acc2[a] == acc[a]);
                assert(acc[a].0 != d[k + 1].0@);
            } else {
                assert(acc2[a].0 == key@);
                assert(d[0].0@ != d[k + 1].0@);
            }
        }
        lemma_entries_roundtrip(d.drop_first(), acc2, tail);
        assert(acc + entry_models_of(d) =~= acc2 + entry_models_of(d.drop_first()));
    }
}

/// The reader inverts the serializer: for every parseable value and any
/// trailing bytes, reading the serialization consumes exactly it and yields
/// the value's shape.  With the readers' contracts this pins what each of
/// them returns on every serialized document.
pub proof fn lemma_parse_inverts_encode(v: BencodeValue, tail: Seq<u8>)
    requires
        parseable(v),
    ensures
        sp_value(spec_encode(v) + tail) == Ok::<(BencodeModel, Seq<u8>), Seq<char>>(
            (model_of(v), tail),
        ),
    decreases v,
{
    let input = spec_encode(v) + tail;
    match v {
        BencodeValue::String(BencodeString::String(s)) => {
            let kb = encode_utf8(s@);
            assert(input =~= spec_encode_bytes(kb) + tail);
            lemma_string_roundtrip(kb, tail);
            vstd::utf8::encode_utf8_valid_utf8(s@);
            vstd::utf8::encode_utf8_decode_utf8(s@);
            assert(is_digit(input[0]));
            assert(input[0] != 105 && input[0] != 108 && input[0] != 100);
        },
        BencodeValue::String(BencodeString::Bytes(b)) => {
            assert(input =~= spec_encode_bytes(b@) + tail);
            lemma_string_roundtrip(b@, tail);
            assert(is_digit(input[0]));
            assert(input[0] != 105 && input[0] != 108 && input[0] != 100);
        },
        BencodeValue::Int(i) => {
            assert(input =~= seq![105u8] + spec_decimal_i64(i as int) + seq![101u8] + tail);
            lemma_int_roundtrip(i, tail);
            assert(input[0] == 105);
        },
        BencodeValue::List(l) => {
            assert(input[0] == 108);
            assert(input.skip(1) =~= spec_encode_items(l@) + seq![101u8] + tail);
            lemma_items_roundtrip(l@, Seq::<BencodeModel>::empty(), tail);
            assert(Seq::<BencodeModel>::empty() + models_of(l@) =~= models_of(l@));
        },
        BencodeValue::Dict(d) => {
            assert(input[0] == 100);
            assert(input.skip(1) =~= spec_encode_entries(d@) + seq![101u8] + tail);
            lemma_entries_roundtrip(d@, Seq::<(Seq<char>, BencodeModel)>::empty(), tail);
            assert(Seq::<(Seq<char>, BencodeModel)>::empty() + entry_models_of(d@)
                =~= entry_models_of(d@));
        },
    }
}

} // verus!
