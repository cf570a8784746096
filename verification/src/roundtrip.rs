use vstd::prelude::*;

verus! {

use vstd::arithmetic::div_mod::lemma_fundamental_div_mod_converse;
use crate::bencode::{BencodeValue, bytes_lt, dec_digits, int_digits, encoded, encoded_list,
    encoded_dict, encoded_raw_dict, encoded_str_bytes, normalized, lemma_bytes_lt_trans};
use crate::read::{is_digit, digits_end, digits_val, canonical_digits, step, spec_parse,
    spec_parse_bstr, spec_parse_items, spec_parse_entries, spec_parse_stream,
    lemma_digits_end_facts, lemma_digits_val_nonneg};

/// A digit run that does not open with `0` has a positive value.
pub proof fn lemma_digits_val_pos(b: Seq<u8>, i: int, j: int)
    requires
        0 <= i < j <= b.len(),
        forall|t: int| i <= t < j ==> is_digit(#[trigger] b[t]),
        b[i] != 0x30,
    ensures
        digits_val(b, i, j) >= 1,
    decreases j - i,
{
    if j - 1 == i {
        assert(digits_val(b, i, i) == 0);
        assert(digits_val(b, i, j) == b[i] - 0x30);
    } else {
        lemma_digits_val_pos(b, i, j - 1);
        lemma_digits_val_nonneg(b, i, j);
    }
}

/// Writing a canonical digit run's value back in decimal gives the very
/// same digits.
pub proof fn lemma_dec_digits_inverse(b: Seq<u8>, i: int, j: int)
    requires
        0 <= i < j <= b.len(),
        forall|t: int| i <= t < j ==> is_digit(#[trigger] b[t]),
        canonical_digits(b, i, j),
    ensures
        dec_digits(digits_val(b, i, j) as nat) == b.subrange(i, j),
    decreases j - i,
{
    let n = digits_val(b, i, j);
    lemma_digits_val_nonneg(b, i, j);
    if j - i == 1 {
        assert(digits_val(b, i, i) == 0);
        assert(n == b[i] - 0x30);
        assert(is_digit(b[i]));
        assert(n < 10);
        assert(dec_digits(n as nat) =~= b.subrange(i, j));
    } else {
        assert(b[i] != 0x30);
        let pre = digits_val(b, i, j - 1);
        lemma_digits_val_pos(b, i, j - 1);
        lemma_digits_val_nonneg(b, i, j - 1);
        assert(n == pre * 10 + (b[j - 1] - 0x30));
        lemma_fundamental_div_mod_converse(n, 10, pre, (b[j - 1] - 0x30) as int);
        assert(n / 10 == pre);
        assert(n % 10 == b[j - 1] - 0x30);
        assert(n >= 10) by {
            assert(pre >= 1);
            assert(pre * 10 >= 10) by (nonlinear_arith)
                requires
                    pre >= 1,
            ;
        }
        assert(canonical_digits(b, i, j - 1));
        lemma_dec_digits_inverse(b, i, j - 1);
        assert(dec_digits(n as nat) == dec_digits((n / 10) as nat).push(
            ((n % 10) + 0x30) as u8,
        ));
        assert(dec_digits(n as nat) =~= b.subrange(i, j)) by {
            assert(dec_digits((n / 10) as nat) == b.subrange(i, j - 1));
            assert(((n % 10) + 0x30) as u8 == b[j - 1]);
            assert(b.subrange(i, j - 1).push(b[j - 1]) =~= b.subrange(i, j));
        }
    }
}

/// What the byte-string grammar accepts re-encodes to the bytes it
/// consumed.
pub proof fn lemma_parse_bstr_sound(b: Seq<u8>, i: int)
    requires
        0 <= i <= b.len(),
    ensures
        spec_parse_bstr(b, i) matches Some((s, j)) ==> ({
            &&& i < j <= b.len()
            &&& encoded_str_bytes(s) == b.subrange(i, j)
        }),
{
    if spec_parse_bstr(b, i) is Some {
        let (s, j) = spec_parse_bstr(b, i)->0;
        let de = digits_end(b, i);
        lemma_digits_end_facts(b, i);
        let n = digits_val(b, i, de);
        lemma_digits_val_nonneg(b, i, de);
        lemma_dec_digits_inverse(b, i, de);
        assert(s == b.subrange(de + 1, de + 1 + n));
        assert(s.len() == n);
        assert(encoded_str_bytes(s) == dec_digits(n as nat) + seq![0x3au8] + s);
        assert(encoded_str_bytes(s) =~= b.subrange(i, de + 1 + n)) by {
            assert(dec_digits(n as nat) == b.subrange(i, de));
            assert(b[de] == 0x3a);
        }
    }
}

} // verus!

verus! {

use vstd::utf8::{valid_utf8, decode_utf8, encode_utf8, decode_utf8_encode_utf8};

/// Decoding every key of a raw dictionary changes nothing on the wire.
pub proof fn lemma_encoded_dict_decode(es: Seq<(Seq<u8>, BencodeValue)>)
    requires
        forall|t: int| 0 <= t < es.len() ==> valid_utf8((#[trigger] es[t]).0),
    ensures
        encoded_dict(es.map_values(|kv: (Seq<u8>, BencodeValue)| (decode_utf8(kv.0), kv.1)))
            == encoded_raw_dict(es),
    decreases es,
{
    let f = |kv: (Seq<u8>, BencodeValue)| (decode_utf8(kv.0), kv.1);
    if es.len() == 0 {
        assert(es.map_values(f).len() == 0);
        assert(encoded_dict(es.map_values(f)) =~= encoded_raw_dict(es));
    } else {
        assert forall|t: int| 0 <= t < es.drop_first().len() implies valid_utf8(
            (#[trigger] es.drop_first()[t]).0,
        ) by {
            assert(es.drop_first()[t] == es[t + 1]);
        }
        lemma_encoded_dict_decode(es.drop_first());
        assert(es.map_values(f)[0] == f(es[0]));
        assert(es.map_values(f).drop_first() =~= es.drop_first().map_values(f));
        decode_utf8_encode_utf8(es[0].0);
        assert(encode_utf8(decode_utf8(es[0].0)) == es[0].0);
        assert(encoded_dict(es.map_values(f)) == encoded_str_bytes(es[0].0) + encoded(es[0].1)
            + encoded_dict(es.drop_first().map_values(f)));
    }
}

/// Everything the value grammar accepts is normalized and re-encodes to
/// the bytes it consumed.
#[verifier::rlimit(100)]
#[verifier::spinoff_prover]
pub proof fn lemma_parse_sound(b: Seq<u8>, i: int)
    requires
        0 <= i <= b.len(),
    ensures
        spec_parse(b, i) matches Some((v, j)) ==> ({
            &&& i < j <= b.len()
            &&& normalized(v)
            &&& encoded(v) == b.subrange(i, j)
        }),
    decreases b.len() - i, 0int,
{
    if spec_parse(b, i) is Some {
        let (v, j) = spec_parse(b, i)->0;
        if b[i] == 0x69 {
            let neg = i + 1 < b.len() && b[i + 1] == 0x2d;
            let d0 = if neg {
                i + 2
            } else {
                i + 1
            };
            let de = digits_end(b, d0);
            lemma_digits_end_facts(b, d0);
            let m = digits_val(b, d0, de);
            lemma_digits_val_nonneg(b, d0, de);
            lemma_dec_digits_inverse(b, d0, de);
            let iv = if neg {
                -m
            } else {
                m
            };
            assert(v == BencodeValue::Integer(iv));
            assert(j == de + 1);
            assert(b[de] == 0x65);
            if neg {
                assert(int_digits(iv) =~= seq![0x2du8] + dec_digits(m as nat));
                assert(encoded(v) =~= b.subrange(i, j)) by {
                    assert(dec_digits(m as nat) == b.subrange(d0, de));
                    assert(b[i + 1] == 0x2d);
                }
            } else {
                assert(encoded(v) =~= b.subrange(i, j)) by {
                    assert(dec_digits(m as nat) == b.subrange(d0, de));
                }
            }
        } else if is_digit(b[i]) {
            lemma_parse_bstr_sound(b, i);
            let (s, j2) = spec_parse_bstr(b, i)->0;
            if valid_utf8(s) {
                assert(v == BencodeValue::String(decode_utf8(s)));
                decode_utf8_encode_utf8(s);
                assert(encoded(v) == encoded_str_bytes(s));
            } else {
                assert(v == BencodeValue::Bytes(s));
            }
        } else if b[i] == 0x6c {
            lemma_parse_items_sound(b, i + 1);
            let (vs, j2) = spec_parse_items(b, i + 1)->0;
            assert(v == BencodeValue::List(vs));
            assert(j == j2);
            assert(encoded(v) =~= b.subrange(i, j)) by {
                assert(encoded_list(vs) == b.subrange(i + 1, j - 1));
                assert(b[j - 1] == 0x65);
            }
        } else {
            lemma_parse_entries_sound(b, i + 1, None);
            let (es, j2) = spec_parse_entries(b, i + 1, None)->0;
            assert(j == j2);
            if forall|k: int| 0 <= k < es.len() ==> valid_utf8((#[trigger] es[k]).0) {
                let f = |kv: (Seq<u8>, BencodeValue)| (decode_utf8(kv.0), kv.1);
                assert(v == BencodeValue::Dictionary(es.map_values(f)));
                lemma_encoded_dict_decode(es);
                assert(encoded(v) =~= b.subrange(i, j)) by {
                    assert(encoded_raw_dict(es) == b.subrange(i + 1, j - 1));
                    assert(b[j - 1] == 0x65);
                }
                assert(normalized(v)) by {
                    let mapped = es.map_values(f);
                    assert forall|t: int| 0 <= t < mapped.len() implies normalized(
                        #[trigger] mapped[t].1,
                    ) by {
                        assert(mapped[t] == f(es[t]));
                    }
                    assert forall|t: int, u: int| 0 <= t < u < mapped.len() implies bytes_lt(
                        encode_utf8(#[trigger] mapped[t].0),
                        encode_utf8(#[trigger] mapped[u].0),
                    ) by {
                        assert(mapped[t] == f(es[t]));
                        assert(mapped[u] == f(es[u]));
                        decode_utf8_encode_utf8(es[t].0);
                        decode_utf8_encode_utf8(es[u].0);
                        assert(bytes_lt(es[t].0, es[u].0));
                    }
                }
            } else {
                assert(v == BencodeValue::RawDictionary(es));
                assert(encoded(v) =~= b.subrange(i, j)) by {
                    assert(encoded_raw_dict(es) == b.subrange(i + 1, j - 1));
                    assert(b[j - 1] == 0x65);
                }
            }
        }
    }
}

/// Everything the element-run grammar accepts is normalized and
/// re-encodes to the bytes before its closing `e`.
pub proof fn lemma_parse_items_sound(b: Seq<u8>, i: int)
    requires
        0 <= i <= b.len(),
    ensures
        spec_parse_items(b, i) matches Some((vs, j)) ==> ({
            &&& i < j <= b.len()
            &&& (forall|t: int| 0 <= t < vs.len() ==> normalized(#[trigger] vs[t]))
            &&& encoded_list(vs) == b.subrange(i, j - 1)
            &&& b[j - 1] == 0x65
        }),
    decreases b.len() - i, 1int,
{
    if spec_parse_items(b, i) is Some {
        let (vs, j) = spec_parse_items(b, i)->0;
        if b[i] == 0x65 {
            assert(vs =~= Seq::<BencodeValue>::empty());
            assert(encoded_list(vs) =~= b.subrange(i, i));
        } else {
            lemma_parse_sound(b, i);
            let (v, j1) = spec_parse(b, i)->0;
            assert(step(b, i, j1) == j1);
            lemma_parse_items_sound(b, j1);
            let (rest, j2) = spec_parse_items(b, j1)->0;
            assert(vs == seq![v] + rest);
            assert(j == j2);
            assert((seq![v] + rest)[0] == v);
            assert((seq![v] + rest).drop_first() =~= rest);
            assert(encoded_list(vs) == encoded(v) + encoded_list(rest));
            assert(encoded(v) + encoded_list(rest) =~= b.subrange(i, j - 1)) by {
                assert(encoded(v) == b.subrange(i, j1));
                assert(encoded_list(rest) == b.subrange(j1, j - 1));
            }
            assert forall|t: int| 0 <= t < vs.len() implies normalized(#[trigger] vs[t]) by {
                if t == 0 {
                    assert(vs[0] == v);
                } else {
                    assert(vs[t] == rest[t - 1]);
                }
            }
        }
    }
}

/// Everything the entry-run grammar accepts has normalized values, keys
/// strictly above `prev` and strictly sorted, and re-encodes to the
/// bytes before its closing `e`.
#[verifier::rlimit(100)]
#[verifier::spinoff_prover]
pub proof fn lemma_parse_entries_sound(b: Seq<u8>, i: int, prev: Option<Seq<u8>>)
    requires
        0 <= i <= b.len(),
    ensures
        spec_parse_entries(b, i, prev) matches Some((es, j)) ==> ({
            &&& i < j <= b.len()
            &&& (forall|t: int| 0 <= t < es.len() ==> normalized((#[trigger] es[t]).1))
            &&& (forall|t: int, u: int|
                0 <= t < u < es.len() ==> bytes_lt((#[trigger] es[t]).0, (#[trigger] es[u]).0))
            &&& (prev matches Some(p) ==> (forall|t: int|
                0 <= t < es.len() ==> bytes_lt(p, (#[trigger] es[t]).0)))
            &&& encoded_raw_dict(es) == b.subrange(i, j - 1)
            &&& b[j - 1] == 0x65
        }),
    decreases b.len() - i, 1int,
{
    if spec_parse_entries(b, i, prev) is Some {
        let (es, j) = spec_parse_entries(b, i, prev)->0;
        if b[i] == 0x65 {
            assert(es =~= Seq::<(Seq<u8>, BencodeValue)>::empty());
            assert(encoded_raw_dict(es) =~= b.subrange(i, i));
        } else {
            lemma_parse_bstr_sound(b, i);
            let (key, j1) = spec_parse_bstr(b, i)->0;
            assert(step(b, i, j1) == j1);
            lemma_parse_sound(b, j1);
            let (v, j2) = spec_parse(b, j1)->0;
            assert(step(b, j1, j2) == j2);
            lemma_parse_entries_sound(b, j2, Some(key));
            let (rest, j3) = spec_parse_entries(b, j2, Some(key))->0;
            assert(es == seq![(key, v)] + rest);
            assert(j == j3);
            assert((seq![(key, v)] + rest)[0] == (key, v));
            assert((seq![(key, v)] + rest).drop_first() =~= rest);
            assert(encoded_raw_dict(es) == encoded_str_bytes(key) + encoded(v)
                + encoded_raw_dict(rest));
            assert(encoded_raw_dict(es) =~= b.subrange(i, j - 1)) by {
                assert(encoded_str_bytes(key) == b.subrange(i, j1));
                assert(encoded(v) == b.subrange(j1, j2));
                assert(encoded_raw_dict(rest) == b.subrange(j2, j - 1));
            }
            assert forall|t: int| 0 <= t < es.len() implies normalized((#[trigger] es[t]).1) by {
                if t == 0 {
                    assert(es[0] == (key, v));
                } else {
                    assert(es[t] == rest[t - 1]);
                }
            }
            assert forall|t: int, u: int|
                0 <= t < u < es.len() implies bytes_lt(
                (#[trigger] es[t]).0,
                (#[trigger] es[u]).0,
            ) by {
                if t == 0 {
                    assert(es[u] == rest[u - 1]);
                    assert(bytes_lt(key, rest[u - 1].0));
                } else {
                    assert(es[t] == rest[t - 1]);
                    assert(es[u] == rest[u - 1]);
                }
            }
            if prev is Some {
                let p = prev->0;
                assert(bytes_lt(p, key));
                assert forall|t: int| 0 <= t < es.len() implies bytes_lt(
                    p,
                    (#[trigger] es[t]).0,
                ) by {
                    if t == 0 {
                        assert(es[0] == (key, v));
                    } else {
                        assert(es[t] == rest[t - 1]);
                        lemma_bytes_lt_trans(p, key, rest[t - 1].0);
                    }
                }
            }
        }
    }
}

/// What a whole stream parses to, re-encodes to the whole stream: the
/// first round-trip law of the codec.
pub proof fn lemma_parse_then_encode(b: Seq<u8>, i: int)
    requires
        0 <= i <= b.len(),
    ensures
        spec_parse_stream(b, i) matches Some(vs) ==> ({
            &&& (forall|t: int| 0 <= t < vs.len() ==> normalized(#[trigger] vs[t]))
            &&& encoded_list(vs) == b.subrange(i, b.len() as int)
        }),
    decreases b.len() - i,
{
    if spec_parse_stream(b, i) is Some {
        let vs = spec_parse_stream(b, i)->0;
        if i >= b.len() {
            assert(vs =~= Seq::<BencodeValue>::empty());
            assert(encoded_list(vs) =~= b.subrange(i, b.len() as int));
        } else {
            lemma_parse_sound(b, i);
            let (v, j) = spec_parse(b, i)->0;
            assert(step(b, i, j) == j);
            lemma_parse_then_encode(b, j);
            let rest = spec_parse_stream(b, j)->0;
            assert(vs == seq![v] + rest);
            assert((seq![v] + rest)[0] == v);
            assert((seq![v] + rest).drop_first() =~= rest);
            assert(encoded_list(vs) == encoded(v) + encoded_list(rest));
            assert(encoded(v) + encoded_list(rest) =~= b.subrange(i, b.len() as int)) by {
                assert(encoded(v) == b.subrange(i, j));
                assert(encoded_list(rest) == b.subrange(j, b.len() as int));
            }
            assert forall|t: int| 0 <= t < vs.len() implies normalized(#[trigger] vs[t]) by {
                if t == 0 {
                    assert(vs[0] == v);
                } else {
                    assert(vs[t] == rest[t - 1]);
                }
            }
        }
    }
}

/// The law for one top-level value: re-encoding the single parsed value
/// gives back the input bytes.
pub proof fn lemma_parse_one_then_encode(b: Seq<u8>, vs: Seq<BencodeValue>)
    requires
        spec_parse_stream(b, 0) == Some(vs),
        vs.len() == 1,
    ensures
        normalized(vs[0]),
        encoded(vs[0]) == b,
{
    lemma_parse_then_encode(b, 0);
    assert(b.subrange(0, b.len() as int) =~= b);
    assert(seq![vs[0]] =~= vs);
    assert((seq![vs[0]]).drop_first() =~= Seq::<BencodeValue>::empty());
    assert(encoded_list(seq![vs[0]].drop_first()) =~= Seq::<u8>::empty());
    assert(encoded(vs[0]) + Seq::<u8>::empty() =~= encoded(vs[0]));
}

} // verus!

verus! {

/// Decimal digit runs hold digits only.
pub proof fn lemma_dec_digits_are_digits(n: nat)
    ensures
        dec_digits(n).len() >= 1,
        forall|i: int| 0 <= i < dec_digits(n).len() ==> is_digit(#[trigger] dec_digits(n)[i]),
    decreases n,
{
    if n >= 10 {
        lemma_dec_digits_are_digits(n / 10);
        assert forall|i: int| 0 <= i < dec_digits(n).len() implies is_digit(
            #[trigger] dec_digits(n)[i],
        ) by {
            if i < dec_digits(n / 10).len() {
                assert(dec_digits(n)[i] == dec_digits(n / 10)[i]);
            } else {
                assert(dec_digits(n)[i] == ((n % 10) + 0x30) as u8);
            }
        }
    }
}

/// A positive value's decimal form does not open with `0`.
pub proof fn lemma_dec_digits_first(n: nat)
    ensures
        n >= 1 ==> dec_digits(n)[0] != 0x30,
    decreases n,
{
    if n >= 10 {
        lemma_dec_digits_first(n / 10);
        lemma_dec_digits_are_digits(n / 10);
        assert(dec_digits(n)[0] == dec_digits(n / 10)[0]);
    }
}

/// The value of a digit run depends on its bytes alone.
pub proof fn lemma_digits_val_congruent(b1: Seq<u8>, i1: int, b2: Seq<u8>, i2: int, len: int)
    requires
        len >= 0,
        forall|t: int| 0 <= t < len ==> #[trigger] b1[i1 + t] == b2[i2 + t],
    ensures
        digits_val(b1, i1, i1 + len) == digits_val(b2, i2, i2 + len),
    decreases len,
{
    if len > 0 {
        lemma_digits_val_congruent(b1, i1, b2, i2, len - 1);
        assert(b1[i1 + (len - 1)] == b2[i2 + (len - 1)]);
    }
}

/// The value of a decimal form is the value it was written from.
pub proof fn lemma_digits_val_of_dec(n: nat)
    ensures
        digits_val(dec_digits(n), 0, dec_digits(n).len() as int) == n,
    decreases n,
{
    let d = dec_digits(n);
    if n < 10 {
        assert(digits_val(d, 0, 0) == 0);
        assert(digits_val(d, 0, 1) == d[0] - 0x30);
    } else {
        lemma_digits_val_of_dec(n / 10);
        let pre = dec_digits(n / 10);
        assert(d == pre.push(((n % 10) + 0x30) as u8));
        assert forall|t: int| 0 <= t < pre.len() implies #[trigger] d[0 + t] == pre[0 + t] by {}
        lemma_digits_val_congruent(d, 0, pre, 0, pre.len() as int);
        assert(digits_val(d, 0, d.len() as int) == digits_val(d, 0, d.len() - 1) * 10 + (d[d.len()
            - 1] - 0x30));
        assert(d[d.len() - 1] == ((n % 10) + 0x30) as u8);
        assert(digits_val(d, 0, d.len() - 1) == n / 10);
    }
}

/// A run of digits followed by a non-digit ends exactly there.
pub proof fn lemma_digits_end_of_run(b: Seq<u8>, i: int, j: int)
    requires
        0 <= i <= j <= b.len(),
        forall|t: int| i <= t < j ==> is_digit(#[trigger] b[t]),
        j == b.len() || !is_digit(b[j]),
    ensures
        digits_end(b, i) == j,
    decreases j - i,
{
    if i < j {
        lemma_digits_end_of_run(b, i + 1, j);
    }
}

/// The first byte of an encoded value names its kind; it is never the
/// terminator `e`, and the encoding is never empty.
pub proof fn lemma_encoded_first(v: BencodeValue)
    ensures
        encoded(v).len() > 0,
        v is Integer ==> encoded(v)[0] == 0x69,
        (v is String || v is Bytes) ==> is_digit(encoded(v)[0]),
        v is List ==> encoded(v)[0] == 0x6c,
        (v is Dictionary || v is RawDictionary) ==> encoded(v)[0] == 0x64,
        encoded(v)[0] != 0x65,
{
    match v {
        BencodeValue::String(s) => {
            let bs = encode_utf8(s);
            lemma_dec_digits_are_digits(bs.len());
            assert(encoded(v)[0] == dec_digits(bs.len())[0]);
        },
        BencodeValue::Bytes(bs) => {
            lemma_dec_digits_are_digits(bs.len());
            assert(encoded(v)[0] == dec_digits(bs.len())[0]);
        },
        _ => {},
    }
}

/// What the byte-string grammar reads from an encoded byte string is
/// that byte string.
pub proof fn lemma_parse_bstr_complete(b: Seq<u8>, i: int, s: Seq<u8>)
    requires
        0 <= i,
        i + encoded_str_bytes(s).len() <= b.len(),
        b.subrange(i, i + encoded_str_bytes(s).len()) == encoded_str_bytes(s),
    ensures
        spec_parse_bstr(b, i) == Some((s, i + encoded_str_bytes(s).len())),
{
    let enc = encoded_str_bytes(s);
    let dl = dec_digits(s.len()).len() as int;
    lemma_dec_digits_are_digits(s.len());
    assert forall|t: int| i <= t < i + dl implies is_digit(#[trigger] b[t]) by {
        assert(b[t] == enc[t - i]);
        assert(enc[t - i] == dec_digits(s.len())[t - i]);
    }
    assert(b[i + dl] == enc[dl]);
    assert(enc[dl] == 0x3a);
    lemma_digits_end_of_run(b, i, i + dl);
    assert(digits_end(b, i) == i + dl);
    assert forall|t: int| 0 <= t < dl implies #[trigger] b[i + t] == dec_digits(s.len())[0
        + t] by {
        assert(b[i + t] == enc[t]);
    }
    lemma_digits_val_congruent(b, i, dec_digits(s.len()), 0, dl);
    lemma_digits_val_of_dec(s.len());
    assert(digits_val(b, i, i + dl) == s.len());
    assert(canonical_digits(b, i, i + dl)) by {
        if dl != 1 {
            lemma_dec_digits_first(s.len());
            assert(b[i + 0] == dec_digits(s.len())[0]);
            assert(b[i] != 0x30);
        }
    }
    assert(b.subrange(i + dl + 1, i + dl + 1 + s.len()) =~= s) by {
        assert forall|t: int| 0 <= t < s.len() implies b.subrange(
            i + dl + 1,
            i + dl + 1 + s.len(),
        )[t] == s[t] by {
            assert(b[i + dl + 1 + t] == enc[dl + 1 + t]);
            assert(enc[dl + 1 + t] == s[t]);
        }
    }
    assert(spec_parse_bstr(b, i) == Some((s, i + dl + 1 + s.len())));
    assert(i + dl + 1 + s.len() == i + enc.len());
}

} // verus!

verus! {

use vstd::utf8::{encode_utf8_valid_utf8, encode_utf8_decode_utf8};

/// The value grammar accepts every encoded normalized value and yields
/// it back.
#[verifier::rlimit(100)]
#[verifier::spinoff_prover]
pub proof fn lemma_parse_complete(b: Seq<u8>, i: int, v: BencodeValue)
    requires
        0 <= i,
        normalized(v),
        i + encoded(v).len() <= b.len(),
        b.subrange(i, i + encoded(v).len()) == encoded(v),
    ensures
        spec_parse(b, i) == Some((v, i + encoded(v).len())),
    decreases v,
{
    let enc = encoded(v);
    lemma_encoded_first(v);
    assert(b[i] == enc[0]) by {
        assert(b.subrange(i, i + enc.len())[0] == enc[0]);
    }
    match v {
        BencodeValue::Integer(iv) => {
            let m: nat = if iv < 0 {
                (-iv) as nat
            } else {
                iv as nat
            };
            let digits = dec_digits(m);
            lemma_dec_digits_are_digits(m);
            let d0 = if iv < 0 {
                i + 2
            } else {
                i + 1
            };
            assert(enc == seq![0x69u8] + int_digits(iv) + seq![0x65u8]);
            if iv < 0 {
                assert(int_digits(iv) == seq![0x2du8] + digits);
                assert(b[i + 1] == enc[1]) by {
                    assert(b.subrange(i, i + enc.len())[1] == enc[1]);
                }
                assert(enc[1] == 0x2d);
            } else {
                assert(int_digits(iv) == digits);
                assert(b[i + 1] == enc[1]) by {
                    assert(b.subrange(i, i + enc.len())[1] == enc[1]);
                }
                assert(enc[1] == digits[0]);
                assert(is_digit(b[i + 1]));
                assert(b[i + 1] != 0x2d);
            }
            assert forall|t: int| d0 <= t < d0 + digits.len() implies is_digit(
                #[trigger] b[t],
            ) by {
                assert(b.subrange(i, i + enc.len())[t - i] == enc[t - i]);
                assert(enc[t - i] == digits[t - d0]);
            }
            assert(b[d0 + digits.len()] == enc[d0 + digits.len() - i]) by {
                assert(b.subrange(i, i + enc.len())[d0 + digits.len() - i] == enc[d0
                    + digits.len() - i]);
            }
            assert(enc[d0 + digits.len() - i] == 0x65);
            lemma_digits_end_of_run(b, d0, d0 + digits.len());
            assert forall|t: int| 0 <= t < digits.len() implies #[trigger] b[d0 + t] == digits[0
                + t] by {
                assert(b.subrange(i, i + enc.len())[d0 + t - i] == enc[d0 + t - i]);
                assert(enc[d0 + t - i] == digits[t]);
            }
            lemma_digits_val_congruent(b, d0, digits, 0, digits.len() as int);
            lemma_digits_val_of_dec(m);
            assert(digits_val(b, d0, d0 + digits.len()) == m);
            assert(canonical_digits(b, d0, d0 + digits.len())) by {
                if digits.len() != 1 {
                    lemma_dec_digits_first(m);
                    assert(b[d0 + 0] == digits[0]);
                }
            }
            if iv < 0 {
                assert(m != 0);
            }
            assert(spec_parse(b, i) == Some((BencodeValue::Integer(iv), d0 + digits.len() + 1)));
            assert(d0 + digits.len() + 1 == i + enc.len());
        },
        BencodeValue::String(s) => {
            let bs = encode_utf8(s);
            lemma_parse_bstr_complete(b, i, bs);
            encode_utf8_valid_utf8(s);
            encode_utf8_decode_utf8(s);
            assert(is_digit(b[i]));
            assert(b[i] != 0x69);
        },
        BencodeValue::Bytes(bs) => {
            lemma_parse_bstr_complete(b, i, bs);
            assert(is_digit(b[i]));
            assert(b[i] != 0x69);
        },
        BencodeValue::List(xs) => {
            assert(enc == seq![0x6cu8] + encoded_list(xs) + seq![0x65u8]);
            assert(b.subrange(i + 1, i + 1 + encoded_list(xs).len()) =~= encoded_list(xs)) by {
                assert forall|t: int| 0 <= t < encoded_list(xs).len() implies b.subrange(
                    i + 1,
                    i + 1 + encoded_list(xs).len(),
                )[t] == encoded_list(xs)[t] by {
                    assert(b.subrange(i, i + enc.len())[1 + t] == enc[1 + t]);
                    assert(enc[1 + t] == encoded_list(xs)[t]);
                }
            }
            assert(b[i + 1 + encoded_list(xs).len()] == enc[enc.len() - 1]) by {
                assert(b.subrange(i, i + enc.len())[enc.len() - 1] == enc[enc.len() - 1]);
            }
            lemma_parse_items_complete(b, i + 1, xs);
            assert(b[i] == 0x6c);
        },
        BencodeValue::Dictionary(es) => {
            assert(enc == seq![0x64u8] + encoded_dict(es) + seq![0x65u8]);
            assert(b.subrange(i + 1, i + 1 + encoded_dict(es).len()) =~= encoded_dict(es)) by {
                assert forall|t: int| 0 <= t < encoded_dict(es).len() implies b.subrange(
                    i + 1,
                    i + 1 + encoded_dict(es).len(),
                )[t] == encoded_dict(es)[t] by {
                    assert(b.subrange(i, i + enc.len())[1 + t] == enc[1 + t]);
                    assert(enc[1 + t] == encoded_dict(es)[t]);
                }
            }
            assert(b[i + 1 + encoded_dict(es).len()] == enc[enc.len() - 1]) by {
                assert(b.subrange(i, i + enc.len())[enc.len() - 1] == enc[enc.len() - 1]);
            }
            lemma_parse_entries_complete_chars(b, i + 1, es, None);
            let raw = es.map_values(
                |kv: (Seq<char>, BencodeValue)| (encode_utf8(kv.0), kv.1),
            );
            assert(spec_parse_entries(b, i + 1, None) == Some(
                (raw, i + 1 + encoded_dict(es).len() + 1),
            ));
            assert forall|k: int| 0 <= k < raw.len() implies valid_utf8(
                (#[trigger] raw[k]).0,
            ) by {
                assert(raw[k] == (encode_utf8(es[k].0), es[k].1));
                encode_utf8_valid_utf8(es[k].0);
            }
            let f = |kv: (Seq<u8>, BencodeValue)| (decode_utf8(kv.0), kv.1);
            assert(raw.map_values(f) =~= es) by {
                assert forall|k: int| 0 <= k < es.len() implies raw.map_values(f)[k]
                    == es[k] by {
                    assert(raw[k] == (encode_utf8(es[k].0), es[k].1));
                    encode_utf8_decode_utf8(es[k].0);
                }
            }
            assert(b[i] == 0x64);
        },
        BencodeValue::RawDictionary(es) => {
            assert(enc == seq![0x64u8] + encoded_raw_dict(es) + seq![0x65u8]);
            assert(b.subrange(i + 1, i + 1 + encoded_raw_dict(es).len()) =~= encoded_raw_dict(
                es,
            )) by {
                assert forall|t: int| 0 <= t < encoded_raw_dict(es).len() implies b.subrange(
                    i + 1,
                    i + 1 + encoded_raw_dict(es).len(),
                )[t] == encoded_raw_dict(es)[t] by {
                    assert(b.subrange(i, i + enc.len())[1 + t] == enc[1 + t]);
                    assert(enc[1 + t] == encoded_raw_dict(es)[t]);
                }
            }
            assert(b[i + 1 + encoded_raw_dict(es).len()] == enc[enc.len() - 1]) by {
                assert(b.subrange(i, i + enc.len())[enc.len() - 1] == enc[enc.len() - 1]);
            }
            lemma_parse_entries_complete_raw(b, i + 1, es, None);
            assert(!(forall|k: int|
                0 <= k < es.len() ==> valid_utf8((#[trigger] es[k]).0)));
            assert(b[i] == 0x64);
        },
    }
}

/// The element-run grammar accepts every encoded run of normalized
/// values up to its closing `e`.
pub proof fn lemma_parse_items_complete(b: Seq<u8>, i: int, vs: Seq<BencodeValue>)
    requires
        0 <= i,
        forall|t: int| 0 <= t < vs.len() ==> normalized(#[trigger] vs[t]),
        i + encoded_list(vs).len() + 1 <= b.len(),
        b.subrange(i, i + encoded_list(vs).len()) == encoded_list(vs),
        b[i + encoded_list(vs).len()] == 0x65,
    ensures
        spec_parse_items(b, i) == Some((vs, i + encoded_list(vs).len() + 1)),
    decreases vs,
{
    if vs.len() == 0 {
        assert(encoded_list(vs).len() == 0);
        assert(b[i] == 0x65);
        assert(spec_parse_items(b, i) == Some((Seq::<BencodeValue>::empty(), i + 1)));
        assert(Seq::<BencodeValue>::empty() =~= vs);
    } else {
        let v = vs[0];
        let rest = vs.drop_first();
        let ev = encoded(v);
        let el = encoded_list(rest);
        assert(encoded_list(vs) == ev + el);
        assert(b.subrange(i, i + ev.len()) =~= ev) by {
            assert forall|t: int| 0 <= t < ev.len() implies b.subrange(i, i + ev.len())[t]
                == ev[t] by {
                assert(b.subrange(i, i + encoded_list(vs).len())[t] == encoded_list(vs)[t]);
                assert(encoded_list(vs)[t] == ev[t]);
            }
        }
        assert(decreases_to!(vs => vs[0]));
        lemma_parse_complete(b, i, v);
        lemma_encoded_first(v);
        assert(b[i] == ev[0]) by {
            assert(b.subrange(i, i + ev.len())[0] == ev[0]);
        }
        assert(b[i] != 0x65);
        let j1 = i + ev.len();
        assert(b.subrange(j1, j1 + el.len()) =~= el) by {
            assert forall|t: int| 0 <= t < el.len() implies b.subrange(j1, j1 + el.len())[t]
                == el[t] by {
                assert(b.subrange(i, i + encoded_list(vs).len())[ev.len() + t]
                    == encoded_list(vs)[ev.len() + t]);
                assert(encoded_list(vs)[ev.len() + t] == el[t]);
            }
        }
        assert forall|t: int| 0 <= t < rest.len() implies normalized(#[trigger] rest[t]) by {
            assert(rest[t] == vs[t + 1]);
        }
        lemma_parse_items_complete(b, j1, rest);
        assert(step(b, i, j1) == j1);
        assert(seq![v] + rest =~= vs);
    }
}

/// The entry-run grammar accepts every encoded run of raw entries whose
/// keys are sorted and above `prev`.
pub proof fn lemma_parse_entries_complete_raw(
    b: Seq<u8>,
    i: int,
    es: Seq<(Seq<u8>, BencodeValue)>,
    prev: Option<Seq<u8>>,
)
    requires
        0 <= i,
        forall|t: int| 0 <= t < es.len() ==> normalized((#[trigger] es[t]).1),
        forall|t: int, u: int|
            0 <= t < u < es.len() ==> bytes_lt((#[trigger] es[t]).0, (#[trigger] es[u]).0),
        prev matches Some(p) ==> (forall|t: int|
            0 <= t < es.len() ==> bytes_lt(p, (#[trigger] es[t]).0)),
        i + encoded_raw_dict(es).len() + 1 <= b.len(),
        b.subrange(i, i + encoded_raw_dict(es).len()) == encoded_raw_dict(es),
        b[i + encoded_raw_dict(es).len()] == 0x65,
    ensures
        spec_parse_entries(b, i, prev) == Some((es, i + encoded_raw_dict(es).len() + 1)),
    decreases es,
{
    if es.len() == 0 {
        assert(encoded_raw_dict(es).len() == 0);
        assert(b[i] == 0x65);
        assert(spec_parse_entries(b, i, prev) == Some(
            (Seq::<(Seq<u8>, BencodeValue)>::empty(), i + 1),
        ));
        assert(Seq::<(Seq<u8>, BencodeValue)>::empty() =~= es);
    } else {
        let (key, v) = es[0];
        let rest = es.drop_first();
        let ek = encoded_str_bytes(key);
        let ev = encoded(v);
        let er = encoded_raw_dict(rest);
        assert(encoded_raw_dict(es) == ek + ev + er);
        assert(b.subrange(i, i + ek.len()) =~= ek) by {
            assert forall|t: int| 0 <= t < ek.len() implies b.subrange(i, i + ek.len())[t]
                == ek[t] by {
                assert(b.subrange(i, i + encoded_raw_dict(es).len())[t] == encoded_raw_dict(
                    es,
                )[t]);
                assert(encoded_raw_dict(es)[t] == ek[t]);
            }
        }
        lemma_parse_bstr_complete(b, i, key);
        lemma_dec_digits_are_digits(key.len());
        assert(b[i] == ek[0]) by {
            assert(b.subrange(i, i + ek.len())[0] == ek[0]);
        }
        assert(ek[0] == dec_digits(key.len())[0]);
        assert(is_digit(b[i]));
        assert(b[i] != 0x65);
        let j1 = i + ek.len();
        assert(b.subrange(j1, j1 + ev.len()) =~= ev) by {
            assert forall|t: int| 0 <= t < ev.len() implies b.subrange(j1, j1 + ev.len())[t]
                == ev[t] by {
                assert(b.subrange(i, i + encoded_raw_dict(es).len())[ek.len() + t]
                    == encoded_raw_dict(es)[ek.len() + t]);
                assert(encoded_raw_dict(es)[ek.len() + t] == ev[t]);
            }
        }
        assert(decreases_to!(es => es[0]));
        assert(decreases_to!(es[0] => es[0].1));
        lemma_parse_complete(b, j1, v);
        let j2 = j1 + ev.len();
        assert(b.subrange(j2, j2 + er.len()) =~= er) by {
            assert forall|t: int| 0 <= t < er.len() implies b.subrange(j2, j2 + er.len())[t]
                == er[t] by {
                assert(b.subrange(i, i + encoded_raw_dict(es).len())[ek.len() + ev.len() + t]
                    == encoded_raw_dict(es)[ek.len() + ev.len() + t]);
                assert(encoded_raw_dict(es)[ek.len() + ev.len() + t] == er[t]);
            }
        }
        assert forall|t: int| 0 <= t < rest.len() implies normalized(
            (#[trigger] rest[t]).1,
        ) by {
            assert(rest[t] == es[t + 1]);
        }
        assert forall|t: int, u: int| 0 <= t < u < rest.len() implies bytes_lt(
            (#[trigger] rest[t]).0,
            (#[trigger] rest[u]).0,
        ) by {
            assert(rest[t] == es[t + 1]);
            assert(rest[u] == es[u + 1]);
        }
        assert forall|t: int| 0 <= t < rest.len() implies bytes_lt(
            key,
            (#[trigger] rest[t]).0,
        ) by {
            assert(rest[t] == es[t + 1]);
        }
        lemma_parse_entries_complete_raw(b, j2, rest, Some(key));
        assert(step(b, i, j1) == j1);
        assert(step(b, j1, j2) == j2);
        if prev is Some {
            assert(bytes_lt(prev->0, es[0].0));
        }
        assert(seq![(key, v)] + rest =~= es);
    }
}

/// The entry-run grammar accepts every encoded run of UTF-8-keyed
/// entries, handing the keys back as bytes.
#[verifier::rlimit(100)]
#[verifier::spinoff_prover]
pub proof fn lemma_parse_entries_complete_chars(
    b: Seq<u8>,
    i: int,
    es: Seq<(Seq<char>, BencodeValue)>,
    prev: Option<Seq<u8>>,
)
    requires
        0 <= i,
        forall|t: int| 0 <= t < es.len() ==> normalized((#[trigger] es[t]).1),
        forall|t: int, u: int|
            0 <= t < u < es.len() ==> bytes_lt(
                encode_utf8((#[trigger] es[t]).0),
                encode_utf8((#[trigger] es[u]).0),
            ),
        prev matches Some(p) ==> (forall|t: int|
            0 <= t < es.len() ==> bytes_lt(p, encode_utf8((#[trigger] es[t]).0))),
        i + encoded_dict(es).len() + 1 <= b.len(),
        b.subrange(i, i + encoded_dict(es).len()) == encoded_dict(es),
        b[i + encoded_dict(es).len()] == 0x65,
    ensures
        spec_parse_entries(b, i, prev) == Some(
            (
                es.map_values(|kv: (Seq<char>, BencodeValue)| (encode_utf8(kv.0), kv.1)),
                i + encoded_dict(es).len() + 1,
            ),
        ),
    decreases es,
{
    let g = |kv: (Seq<char>, BencodeValue)| (encode_utf8(kv.0), kv.1);
    if es.len() == 0 {
        assert(encoded_dict(es).len() == 0);
        assert(b[i] == 0x65);
        assert(spec_parse_entries(b, i, prev) == Some(
            (Seq::<(Seq<u8>, BencodeValue)>::empty(), i + 1),
        ));
        assert(Seq::<(Seq<u8>, BencodeValue)>::empty() =~= es.map_values(g));
    } else {
        let key = encode_utf8(es[0].0);
        let v = es[0].1;
        let rest = es.drop_first();
        let ek = encoded_str_bytes(key);
        let ev = encoded(v);
        let er = encoded_dict(rest);
        assert(encoded_dict(es) == ek + ev + er);
        assert(b.subrange(i, i + ek.len()) =~= ek) by {
            assert forall|t: int| 0 <= t < ek.len() implies b.subrange(i, i + ek.len())[t]
                == ek[t] by {
                assert(b.subrange(i, i + encoded_dict(es).len())[t] == encoded_dict(es)[t]);
                assert(encoded_dict(es)[t] == ek[t]);
            }
        }
        lemma_parse_bstr_complete(b, i, key);
        lemma_dec_digits_are_digits(key.len());
        assert(b[i] == ek[0]) by {
            assert(b.subrange(i, i + ek.len())[0] == ek[0]);
        }
        assert(ek[0] == dec_digits(key.len())[0]);
        assert(is_digit(b[i]));
        assert(b[i] != 0x65);
        let j1 = i + ek.len();
        assert(b.subrange(j1, j1 + ev.len()) =~= ev) by {
            assert forall|t: int| 0 <= t < ev.len() implies b.subrange(j1, j1 + ev.len())[t]
                == ev[t] by {
                assert(b.subrange(i, i + encoded_dict(es).len())[ek.len() + t]
                    == encoded_dict(es)[ek.len() + t]);
                assert(encoded_dict(es)[ek.len() + t] == ev[t]);
            }
        }
        assert(decreases_to!(es => es[0]));
        assert(decreases_to!(es[0] => es[0].1));
        lemma_parse_complete(b, j1, v);
        let j2 = j1 + ev.len();
        assert(b.subrange(j2, j2 + er.len()) =~= er) by {
            assert forall|t: int| 0 <= t < er.len() implies b.subrange(j2, j2 + er.len())[t]
                == er[t] by {
                assert(b.subrange(i, i + encoded_dict(es).len())[ek.len() + ev.len() + t]
                    == encoded_dict(es)[ek.len() + ev.len() + t]);
                assert(encoded_dict(es)[ek.len() + ev.len() + t] == er[t]);
            }
        }
        assert forall|t: int| 0 <= t < rest.len() implies normalized(
            (#[trigger] rest[t]).1,
        ) by {
            assert(rest[t] == es[t + 1]);
        }
        assert forall|t: int, u: int| 0 <= t < u < rest.len() implies bytes_lt(
            encode_utf8((#[trigger] rest[t]).0),
            encode_utf8((#[trigger] rest[u]).0),
        ) by {
            assert(rest[t] == es[t + 1]);
            assert(rest[u] == es[u + 1]);
        }
        assert forall|t: int| 0 <= t < rest.len() implies bytes_lt(
            key,
            encode_utf8((#[trigger] rest[t]).0),
        ) by {
            assert(rest[t] == es[t + 1]);
        }
        lemma_parse_entries_complete_chars(b, j2, rest, Some(key));
        assert(step(b, i, j1) == j1);
        assert(step(b, j1, j2) == j2);
        if prev is Some {
            assert(bytes_lt(prev->0, encode_utf8(es[0].0)));
        }
        assert(seq![(key, v)] + rest.map_values(g) =~= es.map_values(g)) by {
            assert forall|t: int| 0 <= t < es.len() implies (seq![(key, v)] + rest.map_values(
                g,
            ))[t] == es.map_values(g)[t] by {
                if t > 0 {
                    assert(rest.map_values(g)[t - 1] == g(rest[t - 1]));
                    assert(rest[t - 1] == es[t]);
                }
                assert(es.map_values(g)[t] == g(es[t]));
            }
        }
    }
}

/// Encoding entries after turning their keys into bytes changes nothing
/// on the wire.
pub proof fn lemma_encoded_raw_of_mapped(es: Seq<(Seq<char>, BencodeValue)>)
    ensures
        encoded_raw_dict(
            es.map_values(|kv: (Seq<char>, BencodeValue)| (encode_utf8(kv.0), kv.1)),
        ) == encoded_dict(es),
    decreases es,
{
    let g = |kv: (Seq<char>, BencodeValue)| (encode_utf8(kv.0), kv.1);
    if es.len() == 0 {
        assert(es.map_values(g).len() == 0);
        assert(encoded_raw_dict(es.map_values(g)) =~= encoded_dict(es));
    } else {
        lemma_encoded_raw_of_mapped(es.drop_first());
        assert(es.map_values(g)[0] == g(es[0]));
        assert(es.map_values(g).drop_first() =~= es.drop_first().map_values(g));
        assert(encoded_raw_dict(es.map_values(g)) == encoded_str_bytes(encode_utf8(es[0].0))
            + encoded(es[0].1) + encoded_raw_dict(es.drop_first().map_values(g)));
    }
}

/// The second round-trip law of the codec: parsing what a normalized
/// value encodes to yields exactly that value, alone.
pub proof fn lemma_encode_then_parse(v: BencodeValue)
    requires
        normalized(v),
    ensures
        spec_parse_stream(encoded(v), 0) == Some(seq![v]),
{
    let b = encoded(v);
    lemma_encoded_first(v);
    assert(b.subrange(0, b.len() as int) =~= b);
    lemma_parse_complete(b, 0, v);
    assert(spec_parse(b, 0) == Some((v, b.len() as int)));
    assert(step(b, 0, b.len() as int) == b.len());
    assert(spec_parse_stream(b, b.len() as int) == Some(Seq::<BencodeValue>::empty()));
    assert(seq![v] + Seq::<BencodeValue>::empty() =~= seq![v]);
}

} // verus!
