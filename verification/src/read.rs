use vstd::prelude::*;

verus! {

use vstd::utf8::{valid_utf8, decode_utf8};
use crate::bencode::{BencodeValue, bytes_lt};

/// An ASCII decimal digit.
pub open spec fn is_digit(c: u8) -> bool {
    0x30 <= c <= 0x39
}

/// The first position at or after `i` that does not hold a digit (or the
/// end of the stream).
pub open spec fn digits_end(b: Seq<u8>, i: int) -> int
    decreases b.len() - i,
{
    if i < 0 || i >= b.len() {
        i
    } else if is_digit(b[i]) {
        digits_end(b, i + 1)
    } else {
        i
    }
}

/// The value of the decimal digit run `b[i..j]`.
pub open spec fn digits_val(b: Seq<u8>, i: int, j: int) -> int
    decreases j - i,
{
    if i >= j {
        0
    } else {
        digits_val(b, i, j - 1) * 10 + (b[j - 1] - 0x30)
    }
}

/// A digit run is canonical when it is non-empty and carries no leading
/// zero, except for the single digit `0` itself.
pub open spec fn canonical_digits(b: Seq<u8>, i: int, j: int) -> bool {
    j > i && (b[i] != 0x30 || j == i + 1)
}

/// Guard used to express the recursion of the parser: the parser never
/// stands still and never passes the end of the stream, so a reported
/// end is clamped into `i + 1 ..= b.len()`.
pub open spec fn step(b: Seq<u8>, i: int, j: int) -> int {
    let r = if j <= i {
        i + 1
    } else {
        j
    };
    if r > b.len() {
        b.len() as int
    } else {
        r
    }
}

/// Byte string at `i`: canonical decimal length, `:`, that many bytes.
/// Yields the raw bytes and the position after them.
pub open spec fn spec_parse_bstr(b: Seq<u8>, i: int) -> Option<(Seq<u8>, int)> {
    let j = digits_end(b, i);
    if !canonical_digits(b, i, j) {
        None
    } else {
        let n = digits_val(b, i, j);
        if j >= b.len() || b[j] != 0x3a {
            None
        } else if j + 1 + n > b.len() {
            None
        } else {
            Some((b.subrange(j + 1, j + 1 + n), j + 1 + n))
        }
    }
}

/// One value at `i`: the grammar of the wire format, with the parser's
/// variant decisions.  Yields the value and the position after it.
pub open spec fn spec_parse(b: Seq<u8>, i: int) -> Option<(BencodeValue, int)>
    decreases b.len() - i, 0int,
{
    if i < 0 || i >= b.len() {
        None
    } else if b[i] == 0x69 {
        // integer
        let neg = i + 1 < b.len() && b[i + 1] == 0x2d;
        let d0 = if neg {
            i + 2
        } else {
            i + 1
        };
        let j = digits_end(b, d0);
        if !canonical_digits(b, d0, j) {
            None
        } else {
            let m = digits_val(b, d0, j);
            if neg && m == 0 {
                None
            } else {
                let v = if neg {
                    -m
                } else {
                    m
                };
                if v < i64::MIN || v > i64::MAX {
                    None
                } else if j >= b.len() || b[j] != 0x65 {
                    None
                } else {
                    Some((BencodeValue::Integer(v), j + 1))
                }
            }
        }
    } else if is_digit(b[i]) {
        match spec_parse_bstr(b, i) {
            None => None,
            Some((s, j)) => if valid_utf8(s) {
                Some((BencodeValue::String(decode_utf8(s)), j))
            } else {
                Some((BencodeValue::Bytes(s), j))
            },
        }
    } else if b[i] == 0x6c {
        match spec_parse_items(b, i + 1) {
            None => None,
            Some((vs, j)) => Some((BencodeValue::List(vs), j)),
        }
    } else if b[i] == 0x64 {
        match spec_parse_entries(b, i + 1, None) {
            None => None,
            Some((es, j)) => if forall|k: int| 0 <= k < es.len() ==> valid_utf8(#[trigger] es[k].0) {
                Some(
                    (
                        BencodeValue::Dictionary(
                            es.map_values(|kv: (Seq<u8>, BencodeValue)| (decode_utf8(kv.0), kv.1)),
                        ),
                        j,
                    ),
                )
            } else {
                Some((BencodeValue::RawDictionary(es), j))
            },
        }
    } else {
        None
    }
}

/// List elements from `i` up to a closing `e`.  Yields the values and the
/// position after the `e`.
pub open spec fn spec_parse_items(b: Seq<u8>, i: int) -> Option<(Seq<BencodeValue>, int)>
    decreases b.len() - i, 1int,
{
    if i < 0 || i >= b.len() {
        None
    } else if b[i] == 0x65 {
        Some((Seq::empty(), i + 1))
    } else {
        match spec_parse(b, i) {
            None => None,
            Some((v, j)) => match spec_parse_items(b, step(b, i, j)) {
                None => None,
                Some((vs, j2)) => Some((seq![v] + vs, j2)),
            },
        }
    }
}

/// Dictionary entries from `i` up to a closing `e`, with raw keys in
/// strictly increasing byte order; `prev` is the key last read.  Yields
/// the entries and the position after the `e`.
pub open spec fn spec_parse_entries(b: Seq<u8>, i: int, prev: Option<Seq<u8>>) -> Option<
    (Seq<(Seq<u8>, BencodeValue)>, int),
>
    decreases b.len() - i, 1int,
{
    if i < 0 || i >= b.len() {
        None
    } else if b[i] == 0x65 {
        Some((Seq::empty(), i + 1))
    } else {
        match spec_parse_bstr(b, i) {
            None => None,
            Some((key, j)) => if prev matches Some(p) && !bytes_lt(p, key) {
                None
            } else {
                match spec_parse(b, step(b, i, j)) {
                    None => None,
                    Some((v, j2)) => match spec_parse_entries(
                        b,
                        step(b, step(b, i, j), j2),
                        Some(key),
                    ) {
                        None => None,
                        Some((es, j3)) => Some((seq![(key, v)] + es, j3)),
                    },
                }
            },
        }
    }
}

/// The whole stream from `i`: top-level values until the end of input.
pub open spec fn spec_parse_stream(b: Seq<u8>, i: int) -> Option<Seq<BencodeValue>>
    decreases b.len() - i,
{
    if i >= b.len() {
        Some(Seq::empty())
    } else {
        match spec_parse(b, i) {
            None => None,
            Some((v, j)) => match spec_parse_stream(b, step(b, i, j)) {
                None => None,
                Some(vs) => Some(seq![v] + vs),
            },
        }
    }
}

} // verus!

verus! {

use crate::error::{ErrorKind, LavaError};
use crate::bencode::{BencodeElem, view_elem, view_list, view_dict, view_raw_dict,
    lemma_view_list_index, lemma_view_dict_index, lemma_view_raw_dict_index};
use crate::strings::{bytes_lt_exec, bytes_to_utf8};

/// A digit run has a non-negative value.
pub proof fn lemma_digits_val_nonneg(b: Seq<u8>, i: int, j: int)
    requires
        forall|k: int| i <= k < j ==> is_digit(#[trigger] b[k]),
    ensures
        digits_val(b, i, j) >= 0,
    decreases j - i,
{
    if i < j {
        lemma_digits_val_nonneg(b, i, j - 1);
    }
}

/// Extending a digit run does not shrink its value.
pub proof fn lemma_digits_val_mono(b: Seq<u8>, i: int, k: int, j: int)
    requires
        i <= k <= j,
        forall|t: int| i <= t < j ==> is_digit(#[trigger] b[t]),
    ensures
        digits_val(b, i, j) >= digits_val(b, i, k),
    decreases j - k,
{
    if k < j {
        lemma_digits_val_mono(b, i, k, j - 1);
        lemma_digits_val_nonneg(b, i, j - 1);
    }
}

/// All bytes before the end of a digit run are digits, and the run ends
/// at a non-digit or the end of the stream.
pub proof fn lemma_digits_end_facts(b: Seq<u8>, i: int)
    requires
        0 <= i <= b.len(),
    ensures
        i <= digits_end(b, i) <= b.len(),
        forall|k: int| i <= k < digits_end(b, i) ==> is_digit(#[trigger] b[k]),
        digits_end(b, i) < b.len() ==> !is_digit(b[digits_end(b, i)]),
    decreases b.len() - i,
{
    if i < b.len() && is_digit(b[i]) {
        lemma_digits_end_facts(b, i + 1);
    }
}

/// The first position at or after `i` that holds no digit.
pub fn find_digits_end(bytes: &[u8], i: usize) -> (j: usize)
    requires
        i <= bytes@.len(),
    ensures
        j == digits_end(bytes@, i as int),
        i <= j <= bytes@.len(),
{
    let n: usize = bytes.len();
    let mut j: usize = i;
    while j < n && bytes[j] >= 0x30 && bytes[j] <= 0x39
        invariant
            i <= j <= n,
            n == bytes@.len(),
            digits_end(bytes@, i as int) == digits_end(bytes@, j as int),
        decreases n - j,
    {
        proof {
            assert(digits_end(bytes@, j as int) == digits_end(bytes@, j + 1));
        }
        j = j + 1;
    }
    proof {
        assert(digits_end(bytes@, j as int) == j);
    }
    j
}

/// The value of the digit run `bytes[i..j]`, or `None` where it does not
/// fit in a `u64`.
pub fn scan_u64_digits(bytes: &[u8], i: usize, j: usize) -> (r: Option<u64>)
    requires
        i <= j <= bytes@.len(),
        forall|k: int| i <= k < j ==> is_digit(#[trigger] bytes@[k]),
    ensures
        r matches Some(m) ==> m == digits_val(bytes@, i as int, j as int),
        r is None ==> digits_val(bytes@, i as int, j as int) > u64::MAX,
{
    let mut acc: u64 = 0;
    let mut k: usize = i;
    while k < j
        invariant
            i <= k <= j <= bytes@.len(),
            forall|t: int| i <= t < j ==> is_digit(#[trigger] bytes@[t]),
            acc == digits_val(bytes@, i as int, k as int),
        decreases j - k,
    {
        let d: u64 = (bytes[k] - 0x30) as u64;
        let shifted = match acc.checked_mul(10) {
            Some(x) => x,
            None => {
                proof {
                    assert(digits_val(bytes@, i as int, k + 1) == acc * 10 + (bytes@[k as int]
                        - 0x30));
                    lemma_digits_val_mono(bytes@, i as int, k + 1, j as int);
                }
                return None;
            },
        };
        let next = match shifted.checked_add(d) {
            Some(y) => y,
            None => {
                proof {
                    assert(digits_val(bytes@, i as int, k + 1) == acc * 10 + (bytes@[k as int]
                        - 0x30));
                    lemma_digits_val_mono(bytes@, i as int, k + 1, j as int);
                }
                return None;
            },
        };
        proof {
            assert(digits_val(bytes@, i as int, k + 1) == acc * 10 + (bytes@[k as int] - 0x30));
        }
        acc = next;
        k = k + 1;
    }
    Some(acc)
}

/// The value of the digit run `bytes[i..j]`, or `None` where it does not
/// fit in a `usize`.
fn scan_usize_digits(bytes: &[u8], i: usize, j: usize) -> (r: Option<usize>)
    requires
        i <= j <= bytes@.len(),
        forall|k: int| i <= k < j ==> is_digit(#[trigger] bytes@[k]),
    ensures
        r matches Some(m) ==> m == digits_val(bytes@, i as int, j as int),
        r is None ==> digits_val(bytes@, i as int, j as int) > usize::MAX,
{
    let mut acc: usize = 0;
    let mut k: usize = i;
    while k < j
        invariant
            i <= k <= j <= bytes@.len(),
            forall|t: int| i <= t < j ==> is_digit(#[trigger] bytes@[t]),
            acc == digits_val(bytes@, i as int, k as int),
        decreases j - k,
    {
        let d: usize = (bytes[k] - 0x30) as usize;
        let shifted = match acc.checked_mul(10) {
            Some(x) => x,
            None => {
                proof {
                    assert(digits_val(bytes@, i as int, k + 1) == acc * 10 + (bytes@[k as int]
                        - 0x30));
                    lemma_digits_val_mono(bytes@, i as int, k + 1, j as int);
                }
                return None;
            },
        };
        let next = match shifted.checked_add(d) {
            Some(y) => y,
            None => {
                proof {
                    assert(digits_val(bytes@, i as int, k + 1) == acc * 10 + (bytes@[k as int]
                        - 0x30));
                    lemma_digits_val_mono(bytes@, i as int, k + 1, j as int);
                }
                return None;
            },
        };
        proof {
            assert(digits_val(bytes@, i as int, k + 1) == acc * 10 + (bytes@[k as int] - 0x30));
        }
        acc = next;
        k = k + 1;
    }
    Some(acc)
}

/// A fresh copy of `bytes[a..a + n]`.
pub fn copy_range(bytes: &[u8], a: usize, n: usize) -> (r: Vec<u8>)
    requires
        a + n <= bytes@.len(),
    ensures
        r@ == bytes@.subrange(a as int, a + n),
{
    let total: usize = bytes.len();
    let mut out: Vec<u8> = Vec::new();
    let mut t: usize = 0;
    while t < n
        invariant
            0 <= t <= n,
            total == bytes@.len(),
            a + n <= total,
            out@ =~= bytes@.subrange(a as int, a + t),
        decreases n - t,
    {
        out.push(bytes[a + t]);
        proof {
            assert(out@ =~= bytes@.subrange(a as int, a + t + 1));
        }
        t = t + 1;
    }
    out
}

} // verus!

verus! {

use vstd::utf8::encode_utf8;

pub proof fn lemma_view_list_push(xs: Seq<BencodeElem>, x: BencodeElem)
    ensures
        view_list(xs.push(x)) == view_list(xs) + seq![view_elem(x)],
{
    lemma_view_list_index(xs.push(x));
    lemma_view_list_index(xs);
    assert(view_list(xs.push(x)) =~= view_list(xs) + seq![view_elem(x)]);
}

pub proof fn lemma_view_raw_dict_push(es: Seq<(Vec<u8>, BencodeElem)>, e: (Vec<u8>, BencodeElem))
    ensures
        view_raw_dict(es.push(e)) == view_raw_dict(es) + seq![(e.0@, view_elem(e.1))],
{
    lemma_view_raw_dict_index(es.push(e));
    lemma_view_raw_dict_index(es);
    assert(view_raw_dict(es.push(e)) =~= view_raw_dict(es) + seq![(e.0@, view_elem(e.1))]);
}

/// The key that sorted insertion has to beat: the last one read.
pub open spec fn prev_key(es: Seq<(Vec<u8>, BencodeElem)>) -> Option<Seq<u8>> {
    if es.len() == 0 {
        None
    } else {
        Some(es.last().0@)
    }
}

/// Rebuild dictionary entries with their keys decoded from UTF-8.
fn utf8_keys(raw: Vec<(Vec<u8>, BencodeElem)>) -> (conv: Vec<(String, BencodeElem)>)
    requires
        forall|t: int| 0 <= t < raw@.len() ==> valid_utf8(#[trigger] raw@[t].0@),
    ensures
        (view_dict(conv@) == view_raw_dict(raw@).map_values(
            |kv: (Seq<u8>, BencodeValue)| (decode_utf8(kv.0), kv.1),
        )),
{
    let ghost raw0 = raw@;
    let ghost es0 = view_raw_dict(raw@);
    proof {
        lemma_view_raw_dict_index(raw0);
    }
    let mut raw = raw;
    let mut conv: Vec<(String, BencodeElem)> = Vec::new();
    while raw.len() > 0
        invariant
            conv@.len() + raw@.len() == raw0.len(),
            raw@ =~= raw0.skip(conv@.len() as int),
            forall|t: int| 0 <= t < raw0.len() ==> valid_utf8(#[trigger] raw0[t].0@),
            forall|t: int|
                0 <= t < conv@.len() ==> (#[trigger] conv@[t]).1 == raw0[t].1 && encode_utf8(
                    conv@[t].0@,
                ) == raw0[t].0@,
        decreases raw@.len(),
    {
        let (kb, v) = raw.remove(0);
        proof {
            assert(raw0.skip(conv@.len() as int)[0] == raw0[conv@.len() as int]);
            assert(valid_utf8(kb@));
        }
        match bytes_to_utf8(kb.as_slice()) {
            Some(s) => {
                conv.push((s, v));
                proof {
                    assert(raw@ =~= raw0.skip(conv@.len() as int));
                }
            },
            None => {
                proof {
                    assert(false);
                }
            },
        }
    }
    proof {
        lemma_view_dict_index(conv@);
        let cl = |kv: (Seq<u8>, BencodeValue)| (decode_utf8(kv.0), kv.1);
        assert forall|t: int| 0 <= t < conv@.len() implies view_dict(conv@)[t] == es0.map_values(
            cl,
        )[t] by {
            vstd::utf8::encode_utf8_decode_utf8(conv@[t].0@);
        }
        assert(view_dict(conv@) =~= es0.map_values(cl));
    }
    conv
}

/// Byte string at `i` of a byte stream, as the grammar of
/// [`spec_parse_bstr`] reads it.
fn parse_bstr(bytes: &[u8], i: usize) -> (r: Result<(Vec<u8>, usize), LavaError>)
    requires
        i <= bytes@.len(),
    ensures
        r matches Ok((s, j)) ==> ({
            &&& spec_parse_bstr(bytes@, i as int) == Some((s@, j as int))
            &&& i < j <= bytes@.len()
        }),
        r is Err ==> spec_parse_bstr(bytes@, i as int) is None && r->Err_0.kind
            == ErrorKind::MalformedBencode,
{
    proof {
        lemma_digits_end_facts(bytes@, i as int);
    }
    let len: usize = bytes.len();
    let j = find_digits_end(bytes, i);
    if j == i {
        return Err(LavaError::new(ErrorKind::MalformedBencode, "expected a decimal length"));
    }
    if bytes[i] == 0x30 && j != i + 1 {
        return Err(
            LavaError::new(ErrorKind::MalformedBencode, "length carries a leading zero"),
        );
    }
    if j >= len || bytes[j] != 0x3a {
        return Err(
            LavaError::new(ErrorKind::MalformedBencode, "expected `:` after the length"),
        );
    }
    let n = match scan_usize_digits(bytes, i, j) {
        Some(n) => n,
        None => {
            return Err(
                LavaError::new(ErrorKind::MalformedBencode, "length is longer than the input"),
            );
        },
    };
    if n > len - (j + 1) {
        return Err(
            LavaError::new(ErrorKind::MalformedBencode, "length is longer than the input"),
        );
    }
    let s = copy_range(bytes, j + 1, n);
    Ok((s, j + 1 + n))
}

/// One bencode value at `i` of a byte stream, as the grammar of
/// [`spec_parse`] reads it.
#[verifier::loop_isolation(false)]
#[verifier::rlimit(60)]
fn parse_elem(bytes: &[u8], i: usize) -> (r: Result<(BencodeElem, usize), LavaError>)
    requires
        i <= bytes@.len(),
    ensures
        r matches Ok((v, j)) ==> ({
            &&& spec_parse(bytes@, i as int) == Some((v@, j as int))
            &&& i < j <= bytes@.len()
        }),
        r is Err ==> spec_parse(bytes@, i as int) is None && r->Err_0.kind
            == ErrorKind::MalformedBencode,
    decreases bytes@.len() - i,
{
    let len: usize = bytes.len();
    if i >= len {
        return Err(LavaError::new(ErrorKind::MalformedBencode, "unexpected end of input"));
    }
    let c = bytes[i];
    if c == 0x69 {
        let neg = i + 1 < len && bytes[i + 1] == 0x2d;
        let d0: usize = if neg {
            i + 2
        } else {
            i + 1
        };
        proof {
            lemma_digits_end_facts(bytes@, d0 as int);
        }
        let j = find_digits_end(bytes, d0);
        if j == d0 {
            return Err(LavaError::new(ErrorKind::MalformedBencode, "integer without digits"));
        }
        if bytes[d0] == 0x30 && j != d0 + 1 {
            return Err(
                LavaError::new(ErrorKind::MalformedBencode, "integer carries a leading zero"),
            );
        }
        let m = match scan_u64_digits(bytes, d0, j) {
            Some(m) => m,
            None => {
                return Err(
                    LavaError::new(ErrorKind::MalformedBencode, "integer is out of range"),
                );
            },
        };
        if neg && m == 0 {
            return Err(LavaError::new(ErrorKind::MalformedBencode, "negative zero"));
        }
        if neg {
            if m > 0x8000_0000_0000_0000u64 {
                return Err(
                    LavaError::new(ErrorKind::MalformedBencode, "integer is out of range"),
                );
            }
        } else {
            if m > 0x7fff_ffff_ffff_ffffu64 {
                return Err(
                    LavaError::new(ErrorKind::MalformedBencode, "integer is out of range"),
                );
            }
        }
        if j >= len || bytes[j] != 0x65 {
            return Err(
                LavaError::new(ErrorKind::MalformedBencode, "expected `e` after the integer"),
            );
        }
        let v: i64 = if neg {
            if m == 0x8000_0000_0000_0000u64 {
                i64::MIN
            } else {
                -(m as i64)
            }
        } else {
            m as i64
        };
        Ok((BencodeElem::Integer(v), j + 1))
    } else if c >= 0x30 && c <= 0x39 {
        match parse_bstr(bytes, i) {
            Err(e) => Err(e),
            Ok((s, j)) => {
                match bytes_to_utf8(s.as_slice()) {
                    Some(st) => {
                        proof {
                            vstd::utf8::encode_utf8_decode_utf8(st@);
                        }
                        Ok((BencodeElem::String(st), j))
                    },
                    None => Ok((BencodeElem::Bytes(s), j)),
                }
            },
        }
    } else if c == 0x6c {
        let mut elems: Vec<BencodeElem> = Vec::new();
        let mut k: usize = i + 1;
        loop
            invariant
                i + 1 <= k <= len,
                spec_parse_items(bytes@, i + 1) == (match spec_parse_items(bytes@, k as int) {
                    None => None::<(Seq<BencodeValue>, int)>,
                    Some((vs, j)) => Some((view_list(elems@) + vs, j)),
                }),
            decreases len - k,
        {
            if k >= len {
                return Err(
                    LavaError::new(ErrorKind::MalformedBencode, "list is not closed"),
                );
            }
            if bytes[k] == 0x65 {
                proof {
                    assert(view_list(elems@) + Seq::<BencodeValue>::empty() =~= view_list(
                        elems@,
                    ));
                }
                return Ok((BencodeElem::List(elems), k + 1));
            }
            let (v, j) = match parse_elem(bytes, k) {
                Ok(x) => x,
                Err(e) => {
                    return Err(e);
                },
            };
            proof {
                assert(step(bytes@, k as int, j as int) == j as int);
                lemma_view_list_push(elems@, v);
                let r2 = spec_parse_items(bytes@, j as int);
                if r2 is Some {
                    let (vs, j2) = r2->0;
                    assert(view_list(elems@) + (seq![view_elem(v)] + vs) =~= (view_list(elems@)
                        + seq![view_elem(v)]) + vs);
                }
            }
            elems.push(v);
            k = j;
        }
    } else if c == 0x64 {
        let mut raw: Vec<(Vec<u8>, BencodeElem)> = Vec::new();
        let mut all_utf8: bool = true;
        let mut k: usize = i + 1;
        loop
            invariant
                i + 1 <= k <= len,
                all_utf8 == (forall|t: int|
                    0 <= t < raw@.len() ==> valid_utf8(#[trigger] raw@[t].0@)),
                spec_parse_entries(bytes@, i + 1, None) == (match spec_parse_entries(
                    bytes@,
                    k as int,
                    prev_key(raw@),
                ) {
                    None => None::<(Seq<(Seq<u8>, BencodeValue)>, int)>,
                    Some((es, j)) => Some((view_raw_dict(raw@) + es, j)),
                }),
            decreases len - k,
        {
            if k >= len {
                return Err(
                    LavaError::new(ErrorKind::MalformedBencode, "dictionary is not closed"),
                );
            }
            if bytes[k] == 0x65 {
                proof {
                    assert(view_raw_dict(raw@) + Seq::<(Seq<u8>, BencodeValue)>::empty()
                        =~= view_raw_dict(raw@));
                    lemma_view_raw_dict_index(raw@);
                }
                let ghost es0 = view_raw_dict(raw@);
                if all_utf8 {
                    let conv = utf8_keys(raw);
                    return Ok((BencodeElem::Dictionary(conv), k + 1));
                } else {
                    proof {
                        lemma_view_raw_dict_index(raw@);
                        assert(exists|t: int|
                            0 <= t < raw@.len() && !valid_utf8(#[trigger] raw@[t].0@));
                        let t = choose|t: int|
                            0 <= t < raw@.len() && !valid_utf8(#[trigger] raw@[t].0@);
                        assert(es0[t].0 == raw@[t].0@);
                        assert(!valid_utf8(es0[t].0));
                    }
                    return Ok((BencodeElem::RawDictionary(raw), k + 1));
                }
            }
            let (key, j) = match parse_bstr(bytes, k) {
                Ok(x) => x,
                Err(e) => {
                    return Err(e);
                },
            };
            if raw.len() > 0 {
                let last: &(Vec<u8>, BencodeElem) = &raw[raw.len() - 1];
                let sorted = bytes_lt_exec(last.0.as_slice(), key.as_slice());
                if !sorted {
                    return Err(
                        LavaError::new(
                            ErrorKind::MalformedBencode,
                            "dictionary keys are not sorted",
                        ),
                    );
                }
            }
            proof {
                assert(step(bytes@, k as int, j as int) == j as int);
            }
            let (v, j2) = match parse_elem(bytes, j) {
                Ok(x) => x,
                Err(e) => {
                    return Err(e);
                },
            };
            proof {
                assert(step(bytes@, j as int, j2 as int) == j2 as int);
                lemma_view_raw_dict_push(raw@, (key, v));
                let r2 = spec_parse_entries(bytes@, j2 as int, Some(key@));
                if r2 is Some {
                    let (es, j3) = r2->0;
                    assert(view_raw_dict(raw@) + (seq![(key@, view_elem(v))] + es)
                        =~= (view_raw_dict(raw@) + seq![(key@, view_elem(v))]) + es);
                }
            }
            let valid = bytes_to_utf8(key.as_slice()).is_some();
            let ghost old_raw = raw@;
            let ghost old_all = all_utf8;
            if !valid {
                all_utf8 = false;
            }
            raw.push((key, v));
            proof {
                assert(raw@.last() == raw@[raw@.len() - 1]);
                assert forall|t: int| 0 <= t < raw@.len() && t < old_raw.len() implies
                    #[trigger] raw@[t] == old_raw[t] by {}
                if all_utf8 {
                    assert forall|t: int| 0 <= t < raw@.len() implies valid_utf8(
                        #[trigger] raw@[t].0@,
                    ) by {
                        if t < old_raw.len() {
                            assert(old_raw[t].0@ == raw@[t].0@);
                        } else {
                            assert(raw@[t] == (key, v));
                        }
                    }
                } else {
                    if old_all {
                        assert(raw@[raw@.len() - 1] == (key, v));
                        assert(!valid_utf8(raw@[raw@.len() - 1].0@));
                    } else {
                        let t = choose|t: int|
                            0 <= t < old_raw.len() && !valid_utf8(#[trigger] old_raw[t].0@);
                        assert(raw@[t] == old_raw[t]);
                        assert(!valid_utf8(raw@[t].0@));
                    }
                }
            }
            k = j2;
        }
    } else {
        Err(LavaError::new(ErrorKind::MalformedBencode, "unknown prefix byte"))
    }
}

impl BencodeElem {
    /// Parse a whole byte stream into its sequence of top-level values,
    /// as the grammar of [`spec_parse_stream`] reads it.
    #[verifier::loop_isolation(false)]
    pub fn from_bytes(bytes: &[u8]) -> (r: Result<Vec<BencodeElem>, LavaError>)
        ensures
            r matches Ok(vs) ==> spec_parse_stream(bytes@, 0) == Some(view_list(vs@)),
            r is Err ==> spec_parse_stream(bytes@, 0) is None && r->Err_0.kind
                == ErrorKind::MalformedBencode,
    {
        let len: usize = bytes.len();
        let mut elems: Vec<BencodeElem> = Vec::new();
        let mut k: usize = 0;
        loop
            invariant
                0 <= k <= len,
                spec_parse_stream(bytes@, 0) == (match spec_parse_stream(bytes@, k as int) {
                    None => None::<Seq<BencodeValue>>,
                    Some(vs) => Some(view_list(elems@) + vs),
                }),
            decreases len - k,
        {
            if k >= len {
                proof {
                    assert(view_list(elems@) + Seq::<BencodeValue>::empty() =~= view_list(
                        elems@,
                    ));
                }
                return Ok(elems);
            }
            let (v, j) = match parse_elem(bytes, k) {
                Ok(x) => x,
                Err(e) => {
                    return Err(e);
                },
            };
            proof {
                assert(step(bytes@, k as int, j as int) == j as int);
                lemma_view_list_push(elems@, v);
                let r2 = spec_parse_stream(bytes@, j as int);
                if r2 is Some {
                    let vs = r2->0;
                    assert(view_list(elems@) + (seq![view_elem(v)] + vs) =~= (view_list(elems@)
                        + seq![view_elem(v)]) + vs);
                }
            }
            elems.push(v);
            k = j;
        }
    }
}

} // verus!
