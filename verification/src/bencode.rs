use vstd::prelude::*;

verus! {

/// Alias mirroring the width of a bencode integer on the wire.
pub type Integer = i64;

/// A single bencode element.
///
/// The wire format has four kinds of value: integers, byte strings, lists
/// and dictionaries.  Byte strings that decode as UTF-8 are carried as
/// `String`, the rest as `Bytes`; dictionaries whose keys all decode as
/// UTF-8 are carried as `Dictionary`, the rest as `RawDictionary`.  Each
/// pair serializes identically.
///
/// Dictionary entries are kept sorted by the byte-wise order of their
/// encoded keys, which is the canonical order of the wire format; see
/// [`well_formed`].
#[derive(Debug, PartialEq, Eq)]
pub enum BencodeElem {
    String(String),
    Bytes(Vec<u8>),
    Integer(i64),
    List(Vec<BencodeElem>),
    Dictionary(Vec<(String, BencodeElem)>),
    RawDictionary(Vec<(Vec<u8>, BencodeElem)>),
}

/// The mathematical value of a [`BencodeElem`]: the same tree with
/// sequences in place of vectors and strings.
pub enum BencodeValue {
    String(Seq<char>),
    Bytes(Seq<u8>),
    Integer(int),
    List(Seq<BencodeValue>),
    Dictionary(Seq<(Seq<char>, BencodeValue)>),
    RawDictionary(Seq<(Seq<u8>, BencodeValue)>),
}

pub open spec fn view_list(xs: Seq<BencodeElem>) -> Seq<BencodeValue>
    decreases xs,
{
    if xs.len() == 0 {
        Seq::empty()
    } else {
        seq![view_elem(xs[0])] + view_list(xs.drop_first())
    }
}

pub open spec fn view_dict(es: Seq<(String, BencodeElem)>) -> Seq<(Seq<char>, BencodeValue)>
    decreases es,
{
    if es.len() == 0 {
        Seq::empty()
    } else {
        seq![(es[0].0@, view_elem(es[0].1))] + view_dict(es.drop_first())
    }
}

pub open spec fn view_raw_dict(es: Seq<(Vec<u8>, BencodeElem)>) -> Seq<(Seq<u8>, BencodeValue)>
    decreases es,
{
    if es.len() == 0 {
        Seq::empty()
    } else {
        seq![(es[0].0@, view_elem(es[0].1))] + view_raw_dict(es.drop_first())
    }
}

pub open spec fn view_elem(v: BencodeElem) -> BencodeValue
    decreases v,
{
    match v {
        BencodeElem::String(s) => BencodeValue::String(s@),
        BencodeElem::Bytes(b) => BencodeValue::Bytes(b@),
        BencodeElem::Integer(i) => BencodeValue::Integer(i as int),
        BencodeElem::List(xs) => BencodeValue::List(view_list(xs@)),
        BencodeElem::Dictionary(es) => BencodeValue::Dictionary(view_dict(es@)),
        BencodeElem::RawDictionary(es) => BencodeValue::RawDictionary(view_raw_dict(es@)),
    }
}

impl View for BencodeElem {
    type V = BencodeValue;

    open spec fn view(&self) -> BencodeValue {
        view_elem(*self)
    }
}

impl From<u8> for BencodeElem {
    fn from(val: u8) -> (r: BencodeElem) {
        BencodeElem::Integer(val as i64)
    }
}

impl vstd::std_specs::convert::FromSpecImpl<u8> for BencodeElem {
    open spec fn obeys_from_spec() -> bool {
        true
    }

    open spec fn from_spec(v: u8) -> BencodeElem {
        BencodeElem::Integer(v as i64)
    }
}

impl From<u16> for BencodeElem {
    fn from(val: u16) -> (r: BencodeElem) {
        BencodeElem::Integer(val as i64)
    }
}

impl vstd::std_specs::convert::FromSpecImpl<u16> for BencodeElem {
    open spec fn obeys_from_spec() -> bool {
        true
    }

    open spec fn from_spec(v: u16) -> BencodeElem {
        BencodeElem::Integer(v as i64)
    }
}

impl From<u32> for BencodeElem {
    fn from(val: u32) -> (r: BencodeElem) {
        BencodeElem::Integer(val as i64)
    }
}

impl vstd::std_specs::convert::FromSpecImpl<u32> for BencodeElem {
    open spec fn obeys_from_spec() -> bool {
        true
    }

    open spec fn from_spec(v: u32) -> BencodeElem {
        BencodeElem::Integer(v as i64)
    }
}

impl From<i8> for BencodeElem {
    fn from(val: i8) -> (r: BencodeElem) {
        BencodeElem::Integer(val as i64)
    }
}

impl vstd::std_specs::convert::FromSpecImpl<i8> for BencodeElem {
    open spec fn obeys_from_spec() -> bool {
        true
    }

    open spec fn from_spec(v: i8) -> BencodeElem {
        BencodeElem::Integer(v as i64)
    }
}

impl From<i16> for BencodeElem {
    fn from(val: i16) -> (r: BencodeElem) {
        BencodeElem::Integer(val as i64)
    }
}

impl vstd::std_specs::convert::FromSpecImpl<i16> for BencodeElem {
    open spec fn obeys_from_spec() -> bool {
        true
    }

    open spec fn from_spec(v: i16) -> BencodeElem {
        BencodeElem::Integer(v as i64)
    }
}

impl From<i32> for BencodeElem {
    fn from(val: i32) -> (r: BencodeElem) {
        BencodeElem::Integer(val as i64)
    }
}

impl vstd::std_specs::convert::FromSpecImpl<i32> for BencodeElem {
    open spec fn obeys_from_spec() -> bool {
        true
    }

    open spec fn from_spec(v: i32) -> BencodeElem {
        BencodeElem::Integer(v as i64)
    }
}

impl From<i64> for BencodeElem {
    fn from(val: i64) -> (r: BencodeElem) {
        BencodeElem::Integer(val)
    }
}

impl vstd::std_specs::convert::FromSpecImpl<i64> for BencodeElem {
    open spec fn obeys_from_spec() -> bool {
        true
    }

    open spec fn from_spec(v: i64) -> BencodeElem {
        BencodeElem::Integer(v)
    }
}

impl From<String> for BencodeElem {
    fn from(val: String) -> (r: BencodeElem) {
        BencodeElem::String(val)
    }
}

impl vstd::std_specs::convert::FromSpecImpl<String> for BencodeElem {
    open spec fn obeys_from_spec() -> bool {
        true
    }

    open spec fn from_spec(v: String) -> BencodeElem {
        BencodeElem::String(v)
    }
}

impl From<Vec<u8>> for BencodeElem {
    fn from(val: Vec<u8>) -> (r: BencodeElem) {
        BencodeElem::Bytes(val)
    }
}

impl vstd::std_specs::convert::FromSpecImpl<Vec<u8>> for BencodeElem {
    open spec fn obeys_from_spec() -> bool {
        true
    }

    open spec fn from_spec(v: Vec<u8>) -> BencodeElem {
        BencodeElem::Bytes(v)
    }
}

pub broadcast proof fn lemma_view_list_index(xs: Seq<BencodeElem>)
    ensures
        (#[trigger] view_list(xs)).len() == xs.len(),
        forall|i: int| 0 <= i < xs.len() ==> view_list(xs)[i] == view_elem(xs[i]),
    decreases xs,
{
    if xs.len() > 0 {
        lemma_view_list_index(xs.drop_first());
    }
}

pub broadcast proof fn lemma_view_dict_index(es: Seq<(String, BencodeElem)>)
    ensures
        (#[trigger] view_dict(es)).len() == es.len(),
        forall|i: int|
            0 <= i < es.len() ==> view_dict(es)[i] == (es[i].0@, view_elem(es[i].1)),
    decreases es,
{
    if es.len() > 0 {
        lemma_view_dict_index(es.drop_first());
    }
}

pub broadcast proof fn lemma_view_raw_dict_index(es: Seq<(Vec<u8>, BencodeElem)>)
    ensures
        (#[trigger] view_raw_dict(es)).len() == es.len(),
        forall|i: int|
            0 <= i < es.len() ==> view_raw_dict(es)[i] == (es[i].0@, view_elem(es[i].1)),
    decreases es,
{
    if es.len() > 0 {
        lemma_view_raw_dict_index(es.drop_first());
    }
}

/// Strict byte-wise lexicographic order, the order of dictionary keys on
/// the wire.
pub open spec fn bytes_lt(a: Seq<u8>, b: Seq<u8>) -> bool
    decreases a,
{
    if b.len() == 0 {
        false
    } else if a.len() == 0 {
        true
    } else if a[0] < b[0] {
        true
    } else if a[0] > b[0] {
        false
    } else {
        bytes_lt(a.drop_first(), b.drop_first())
    }
}

/// Decimal digits of `n`, most significant first.
pub open spec fn dec_digits(n: nat) -> Seq<u8>
    decreases n,
{
    if n < 10 {
        seq![(n + 0x30) as u8]
    } else {
        dec_digits(n / 10).push(((n % 10) + 0x30) as u8)
    }
}

/// Decimal representation of a signed integer, with `-` for negatives.
pub open spec fn int_digits(n: int) -> Seq<u8> {
    if n < 0 {
        seq![0x2du8] + dec_digits((-n) as nat)
    } else {
        dec_digits(n as nat)
    }
}

/// Wire form of a byte string: decimal length, `:`, then the bytes.
pub open spec fn encoded_str_bytes(b: Seq<u8>) -> Seq<u8> {
    dec_digits(b.len()) + seq![0x3au8] + b
}

/// Wire form of one value, canonical throughout: integers without
/// superfluous signs or zeros, dictionary entries in the stored order.
pub open spec fn encoded(v: BencodeValue) -> Seq<u8>
    decreases v,
{
    match v {
        BencodeValue::String(s) => encoded_str_bytes(vstd::utf8::encode_utf8(s)),
        BencodeValue::Bytes(b) => encoded_str_bytes(b),
        BencodeValue::Integer(i) => seq![0x69u8] + int_digits(i) + seq![0x65u8],
        BencodeValue::List(xs) => seq![0x6cu8] + encoded_list(xs) + seq![0x65u8],
        BencodeValue::Dictionary(es) => seq![0x64u8] + encoded_dict(es) + seq![0x65u8],
        BencodeValue::RawDictionary(es) => seq![0x64u8] + encoded_raw_dict(es) + seq![0x65u8],
    }
}

/// Wire form of a run of values, in order.
pub open spec fn encoded_list(xs: Seq<BencodeValue>) -> Seq<u8>
    decreases xs,
{
    if xs.len() == 0 {
        Seq::empty()
    } else {
        encoded(xs[0]) + encoded_list(xs.drop_first())
    }
}

/// Wire form of dictionary entries with UTF-8 keys, in the stored order.
pub open spec fn encoded_dict(es: Seq<(Seq<char>, BencodeValue)>) -> Seq<u8>
    decreases es,
{
    if es.len() == 0 {
        Seq::empty()
    } else {
        encoded_str_bytes(vstd::utf8::encode_utf8(es[0].0)) + encoded(es[0].1) + encoded_dict(
            es.drop_first(),
        )
    }
}

/// Wire form of dictionary entries with raw keys, in the stored order.
pub open spec fn encoded_raw_dict(es: Seq<(Seq<u8>, BencodeValue)>) -> Seq<u8>
    decreases es,
{
    if es.len() == 0 {
        Seq::empty()
    } else {
        encoded_str_bytes(es[0].0) + encoded(es[0].1) + encoded_raw_dict(es.drop_first())
    }
}

/// A value the library's operations may hold: integers fit the wire
/// width, and dictionary entries are strictly sorted by key bytes.
pub open spec fn well_formed(v: BencodeValue) -> bool
    decreases v,
{
    match v {
        BencodeValue::String(s) => true,
        BencodeValue::Bytes(b) => true,
        BencodeValue::Integer(i) => i64::MIN <= i <= i64::MAX,
        BencodeValue::List(xs) => forall|i: int| 0 <= i < xs.len() ==> well_formed(#[trigger] xs[i]),
        BencodeValue::Dictionary(es) => {
            &&& forall|i: int| 0 <= i < es.len() ==> well_formed(#[trigger] es[i].1)
            &&& forall|i: int, j: int|
                0 <= i < j < es.len() ==> bytes_lt(
                    vstd::utf8::encode_utf8(#[trigger] es[i].0),
                    vstd::utf8::encode_utf8(#[trigger] es[j].0),
                )
        },
        BencodeValue::RawDictionary(es) => {
            &&& forall|i: int| 0 <= i < es.len() ==> well_formed(#[trigger] es[i].1)
            &&& forall|i: int, j: int|
                0 <= i < j < es.len() ==> bytes_lt(#[trigger] es[i].0, #[trigger] es[j].0)
        },
    }
}

/// The form the parser produces: well-formed, and the variant choice is
/// the canonical one.  `Bytes` only where the bytes are not UTF-8, and
/// `RawDictionary` only where some key is not UTF-8.
pub open spec fn normalized(v: BencodeValue) -> bool
    decreases v,
{
    match v {
        BencodeValue::String(s) => true,
        BencodeValue::Bytes(b) => !vstd::utf8::valid_utf8(b),
        BencodeValue::Integer(i) => i64::MIN <= i <= i64::MAX,
        BencodeValue::List(xs) => forall|i: int| 0 <= i < xs.len() ==> normalized(#[trigger] xs[i]),
        BencodeValue::Dictionary(es) => {
            &&& forall|i: int| 0 <= i < es.len() ==> normalized(#[trigger] es[i].1)
            &&& forall|i: int, j: int|
                0 <= i < j < es.len() ==> bytes_lt(
                    vstd::utf8::encode_utf8(#[trigger] es[i].0),
                    vstd::utf8::encode_utf8(#[trigger] es[j].0),
                )
        },
        BencodeValue::RawDictionary(es) => {
            &&& forall|i: int| 0 <= i < es.len() ==> normalized(#[trigger] es[i].1)
            &&& forall|i: int, j: int|
                0 <= i < j < es.len() ==> bytes_lt(#[trigger] es[i].0, #[trigger] es[j].0)
            &&& exists|i: int| 0 <= i < es.len() && !vstd::utf8::valid_utf8(#[trigger] es[i].0)
        },
    }
}


} // verus!

verus! {

use crate::strings::{str_to_bytes, push_dec_u64, push_dec_i64};

pub proof fn lemma_encoded_list_take(xs: Seq<BencodeValue>, i: int)
    requires
        0 <= i < xs.len(),
    ensures
        encoded_list(xs.take(i + 1)) == encoded_list(xs.take(i)) + encoded(xs[i]),
    decreases i,
{
    if i == 0 {
        assert(xs.take(0) =~= Seq::<BencodeValue>::empty());
        assert(xs.take(1).drop_first() =~= Seq::<BencodeValue>::empty());
        assert(xs.take(1)[0] == xs[0]);
        assert(encoded_list(xs.take(1)) =~= encoded_list(xs.take(0)) + encoded(xs[0]));
    } else {
        let t = xs.drop_first();
        lemma_encoded_list_take(t, i - 1);
        assert(xs.take(i + 1).drop_first() =~= t.take(i));
        assert(xs.take(i).drop_first() =~= t.take(i - 1));
        assert(xs.take(i + 1)[0] == xs[0]);
        assert(xs.take(i)[0] == xs[0]);
        assert(t[i - 1] == xs[i]);
        assert(encoded(xs[0]) + (encoded_list(t.take(i - 1)) + encoded(xs[i])) =~= (encoded(
            xs[0],
        ) + encoded_list(t.take(i - 1))) + encoded(xs[i]));
    }
}

#[verifier::rlimit(100)]
#[verifier::spinoff_prover]
pub proof fn lemma_encoded_dict_take(es: Seq<(Seq<char>, BencodeValue)>, i: int)
    requires
        0 <= i < es.len(),
    ensures
        encoded_dict(es.take(i + 1)) == encoded_dict(es.take(i)) + encoded_str_bytes(
            vstd::utf8::encode_utf8(es[i].0),
        ) + encoded(es[i].1),
    decreases i,
{
    let entry = encoded_str_bytes(vstd::utf8::encode_utf8(es[i].0)) + encoded(es[i].1);
    if i == 0 {
        assert(es.take(0) =~= Seq::<(Seq<char>, BencodeValue)>::empty());
        assert(es.take(1).drop_first() =~= Seq::<(Seq<char>, BencodeValue)>::empty());
        assert(es.take(1)[0] == es[0]);
        assert(encoded_dict(es.take(1)) =~= encoded_dict(es.take(0)) + encoded_str_bytes(
            vstd::utf8::encode_utf8(es[0].0),
        ) + encoded(es[0].1));
    } else {
        let t = es.drop_first();
        lemma_encoded_dict_take(t, i - 1);
        assert(es.take(i + 1).drop_first() =~= t.take(i));
        assert(es.take(i).drop_first() =~= t.take(i - 1));
        assert(es.take(i + 1)[0] == es[0]);
        assert(es.take(i)[0] == es[0]);
        assert(t[i - 1] == es[i]);
        let head = encoded_str_bytes(vstd::utf8::encode_utf8(es[0].0)) + encoded(es[0].1);
        assert(encoded_dict(es.take(i + 1)) == head + (encoded_dict(t.take(i - 1)) + entry));
        assert(head + (encoded_dict(t.take(i - 1)) + entry) =~= (head + encoded_dict(
            t.take(i - 1),
        )) + entry);
        assert((head + encoded_dict(t.take(i - 1))) + entry =~= encoded_dict(es.take(i))
            + encoded_str_bytes(vstd::utf8::encode_utf8(es[i].0)) + encoded(es[i].1));
    }
}

#[verifier::rlimit(100)]
#[verifier::spinoff_prover]
pub proof fn lemma_encoded_raw_dict_take(es: Seq<(Seq<u8>, BencodeValue)>, i: int)
    requires
        0 <= i < es.len(),
    ensures
        encoded_raw_dict(es.take(i + 1)) == encoded_raw_dict(es.take(i)) + encoded_str_bytes(
            es[i].0,
        ) + encoded(es[i].1),
    decreases i,
{
    let entry = encoded_str_bytes(es[i].0) + encoded(es[i].1);
    if i == 0 {
        assert(es.take(0) =~= Seq::<(Seq<u8>, BencodeValue)>::empty());
        assert(es.take(1).drop_first() =~= Seq::<(Seq<u8>, BencodeValue)>::empty());
        assert(es.take(1)[0] == es[0]);
        assert(encoded_raw_dict(es.take(1)) =~= encoded_raw_dict(es.take(0)) + encoded_str_bytes(
            es[0].0,
        ) + encoded(es[0].1));
    } else {
        let t = es.drop_first();
        lemma_encoded_raw_dict_take(t, i - 1);
        assert(es.take(i + 1).drop_first() =~= t.take(i));
        assert(es.take(i).drop_first() =~= t.take(i - 1));
        assert(es.take(i + 1)[0] == es[0]);
        assert(es.take(i)[0] == es[0]);
        assert(t[i - 1] == es[i]);
        let head = encoded_str_bytes(es[0].0) + encoded(es[0].1);
        assert(encoded_raw_dict(es.take(i + 1)) == head + (encoded_raw_dict(t.take(i - 1))
            + entry));
        assert(head + (encoded_raw_dict(t.take(i - 1)) + entry) =~= (head + encoded_raw_dict(
            t.take(i - 1),
        )) + entry);
        assert((head + encoded_raw_dict(t.take(i - 1))) + entry =~= encoded_raw_dict(es.take(i))
            + encoded_str_bytes(es[i].0) + encoded(es[i].1));
    }
}

/// Append a copy of `b` to `out`.
pub fn push_bytes(b: &[u8], out: &mut Vec<u8>)
    ensures
        final(out)@ == old(out)@ + b@,
{
    let n: usize = b.len();
    let mut i: usize = 0;
    while i < n
        invariant
            0 <= i <= n,
            n == b@.len(),
            out@ == old(out)@ + b@.take(i as int),
        decreases n - i,
    {
        out.push(b[i]);
        proof {
            assert(old(out)@ + b@.take(i + 1) =~= (old(out)@ + b@.take(i as int)).push(
                b@[i as int],
            ));
        }
        i = i + 1;
    }
    proof {
        assert(b@.take(n as int) =~= b@);
    }
}

/// Append the wire form of a byte string: decimal length, `:`, bytes.
fn push_str_bytes(b: &[u8], out: &mut Vec<u8>)
    ensures
        final(out)@ == old(out)@ + encoded_str_bytes(b@),
{
    let n: u64 = b.len() as u64;
    push_dec_u64(n, out);
    out.push(0x3a);
    push_bytes(b, out);
    proof {
        assert(final(out)@ =~= old(out)@ + encoded_str_bytes(b@));
    }
}

impl BencodeElem {
    /// Append this element's wire form to `out`.
    #[verifier::loop_isolation(false)]
    fn encode_into(&self, out: &mut Vec<u8>)
        ensures
            final(out)@ == old(out)@ + encoded(self@),
        decreases *self,
    {
        broadcast use vstd::std_specs::vec::group_vec_axioms;

        match self {
            BencodeElem::String(s) => {
                let bytes = str_to_bytes(s.as_str());
                push_str_bytes(bytes.as_slice(), out);
            },
            BencodeElem::Bytes(b) => {
                push_str_bytes(b.as_slice(), out);
            },
            BencodeElem::Integer(i) => {
                out.push(0x69);
                push_dec_i64(*i, out);
                out.push(0x65);
                proof {
                    assert(final(out)@ =~= old(out)@ + encoded(self@));
                }
            },
            BencodeElem::List(xs) => {
                out.push(0x6c);
                proof {
                    lemma_view_list_index(xs@);
                }
                let ghost vxs = view_list(xs@);
                let n: usize = xs.len();
                let mut k: usize = 0;
                while k < n
                    invariant
                        0 <= k <= n,
                        n == xs@.len(),
                        vxs == view_list(xs@),
                        vxs.len() == n,
                        forall|j: int| 0 <= j < n ==> vxs[j] == view_elem(xs@[j]),
                        out@ == old(out)@ + seq![0x6cu8] + encoded_list(vxs.take(k as int)),
                    decreases n - k,
                {
                    let elem = &xs[k];
                    elem.encode_into(out);
                    proof {
                        lemma_encoded_list_take(vxs, k as int);
                        assert((old(out)@ + seq![0x6cu8] + encoded_list(vxs.take(k as int)))
                            + encoded(vxs[k as int]) =~= old(out)@ + seq![0x6cu8] + encoded_list(
                            vxs.take(k + 1),
                        ));
                    }
                    k = k + 1;
                }
                out.push(0x65);
                proof {
                    assert(vxs.take(n as int) =~= vxs);
                    assert(final(out)@ =~= old(out)@ + encoded(self@));
                }
            },
            BencodeElem::Dictionary(es) => {
                out.push(0x64);
                proof {
                    lemma_view_dict_index(es@);
                }
                let ghost ves = view_dict(es@);
                let n: usize = es.len();
                let mut k: usize = 0;
                while k < n
                    invariant
                        0 <= k <= n,
                        n == es@.len(),
                        ves == view_dict(es@),
                        ves.len() == n,
                        forall|j: int|
                            0 <= j < n ==> ves[j] == (es@[j].0@, view_elem(es@[j].1)),
                        out@ == old(out)@ + seq![0x64u8] + encoded_dict(ves.take(k as int)),
                    decreases n - k,
                {
                    let pair = &es[k];
                    let kb = str_to_bytes(pair.0.as_str());
                    push_str_bytes(kb.as_slice(), out);
                    pair.1.encode_into(out);
                    proof {
                        lemma_encoded_dict_take(ves, k as int);
                        assert(((old(out)@ + seq![0x64u8] + encoded_dict(ves.take(k as int)))
                            + encoded_str_bytes(vstd::utf8::encode_utf8(ves[k as int].0)))
                            + encoded(ves[k as int].1) =~= old(out)@ + seq![0x64u8]
                            + encoded_dict(ves.take(k + 1)));
                    }
                    k = k + 1;
                }
                out.push(0x65);
                proof {
                    assert(ves.take(n as int) =~= ves);
                    assert(final(out)@ =~= old(out)@ + encoded(self@));
                }
            },
            BencodeElem::RawDictionary(es) => {
                out.push(0x64);
                proof {
                    lemma_view_raw_dict_index(es@);
                }
                let ghost ves = view_raw_dict(es@);
                let n: usize = es.len();
                let mut k: usize = 0;
                while k < n
                    invariant
                        0 <= k <= n,
                        n == es@.len(),
                        ves == view_raw_dict(es@),
                        ves.len() == n,
                        forall|j: int|
                            0 <= j < n ==> ves[j] == (es@[j].0@, view_elem(es@[j].1)),
                        out@ == old(out)@ + seq![0x64u8] + encoded_raw_dict(ves.take(k as int)),
                    decreases n - k,
                {
                    let pair = &es[k];
                    push_str_bytes(pair.0.as_slice(), out);
                    pair.1.encode_into(out);
                    proof {
                        lemma_encoded_raw_dict_take(ves, k as int);
                        assert(((old(out)@ + seq![0x64u8] + encoded_raw_dict(ves.take(k as int)))
                            + encoded_str_bytes(ves[k as int].0)) + encoded(ves[k as int].1)
                            =~= old(out)@ + seq![0x64u8] + encoded_raw_dict(ves.take(k + 1)));
                    }
                    k = k + 1;
                }
                out.push(0x65);
                proof {
                    assert(ves.take(n as int) =~= ves);
                    assert(final(out)@ =~= old(out)@ + encoded(self@));
                }
            },
        }
    }

    /// The canonical wire form of this element.
    pub fn encode(&self) -> (r: Vec<u8>)
        ensures
            r@ == encoded(self@),
    {
        let mut out: Vec<u8> = Vec::new();
        self.encode_into(&mut out);
        proof {
            assert(out@ =~= encoded(self@));
        }
        out
    }
}

} // verus!

verus! {

use vstd::utf8::encode_utf8;
use crate::strings::{bytes_lt_exec, bytes_eq_exec, str_eq};

/// `bytes_lt` orders byte strings totally: two strings compare one way,
/// the other, or are equal.
pub proof fn lemma_bytes_lt_trichotomy(a: Seq<u8>, b: Seq<u8>)
    ensures
        bytes_lt(a, b) || bytes_lt(b, a) || a == b,
        bytes_lt(a, b) ==> !bytes_lt(b, a) && a != b,
    decreases a,
{
    if a.len() == 0 && b.len() == 0 {
        assert(a =~= b);
    } else if a.len() > 0 && b.len() > 0 && a[0] == b[0] {
        lemma_bytes_lt_trichotomy(a.drop_first(), b.drop_first());
        if a.drop_first() == b.drop_first() {
            assert forall|k: int| 0 <= k < a.len() implies a[k] == b[k] by {
                if k > 0 {
                    assert(a.drop_first()[k - 1] == b.drop_first()[k - 1]);
                }
            }
            assert(a =~= b);
        }
    }
}

/// `bytes_lt` is transitive.
pub proof fn lemma_bytes_lt_trans(a: Seq<u8>, b: Seq<u8>, c: Seq<u8>)
    requires
        bytes_lt(a, b),
        bytes_lt(b, c),
    ensures
        bytes_lt(a, c),
    decreases a,
{
    if a.len() > 0 && b.len() > 0 && c.len() > 0 && a[0] == b[0] && b[0] == c[0] {
        lemma_bytes_lt_trans(a.drop_first(), b.drop_first(), c.drop_first());
    }
}

/// Insertion into dictionary entries at the position the key bytes pick:
/// before the first larger key, replacing an equal one.
pub open spec fn spec_dict_insert(
    es: Seq<(Seq<char>, BencodeValue)>,
    k: Seq<char>,
    v: BencodeValue,
) -> Seq<(Seq<char>, BencodeValue)>
    decreases es,
{
    if es.len() == 0 {
        seq![(k, v)]
    } else if bytes_lt(encode_utf8(k), encode_utf8(es[0].0)) {
        seq![(k, v)] + es
    } else if encode_utf8(k) == encode_utf8(es[0].0) {
        seq![(k, v)] + es.drop_first()
    } else {
        seq![es[0]] + spec_dict_insert(es.drop_first(), k, v)
    }
}

/// The value under `k`, if the entries hold it.
pub open spec fn spec_dict_get(es: Seq<(Seq<char>, BencodeValue)>, k: Seq<char>) -> Option<
    BencodeValue,
>
    decreases es,
{
    if es.len() == 0 {
        None
    } else if es[0].0 == k {
        Some(es[0].1)
    } else {
        spec_dict_get(es.drop_first(), k)
    }
}

/// Entries sorted strictly by the bytes of their keys.
pub open spec fn dict_entries_sorted(es: Seq<(Seq<char>, BencodeValue)>) -> bool {
    forall|i: int, j: int|
        0 <= i < j < es.len() ==> bytes_lt(
            encode_utf8(#[trigger] es[i].0),
            encode_utf8(#[trigger] es[j].0),
        )
}

/// Each entry after an insertion is the inserted pair or one of the old
/// entries, and insertion keeps the entries sorted.
pub proof fn lemma_spec_dict_insert_facts(
    es: Seq<(Seq<char>, BencodeValue)>,
    k: Seq<char>,
    v: BencodeValue,
)
    ensures
        forall|t: int|
            0 <= t < spec_dict_insert(es, k, v).len() ==> (#[trigger] spec_dict_insert(es, k, v)[t]
                == (k, v) || exists|s: int| 0 <= s < es.len() && es[s] == spec_dict_insert(
                es,
                k,
                v,
            )[t]),
        dict_entries_sorted(es) ==> dict_entries_sorted(spec_dict_insert(es, k, v)),
    decreases es,
{
    let r = spec_dict_insert(es, k, v);
    if es.len() == 0 {
        assert(r == seq![(k, v)]);
        assert(r[0] == (k, v));
    } else if bytes_lt(encode_utf8(k), encode_utf8(es[0].0)) {
        assert(r == seq![(k, v)] + es);
        assert forall|t: int| 0 <= t < r.len() implies (#[trigger] r[t] == (k, v) || exists|s: int|
            0 <= s < es.len() && es[s] == r[t]) by {
            if t > 0 {
                assert(es[t - 1] == r[t]);
            }
        }
        if dict_entries_sorted(es) {
            assert forall|i: int, j: int| 0 <= i < j < r.len() implies bytes_lt(
                encode_utf8(#[trigger] r[i].0),
                encode_utf8(#[trigger] r[j].0),
            ) by {
                if i == 0 {
                    if j > 1 {
                        lemma_bytes_lt_trans(
                            encode_utf8(k),
                            encode_utf8(es[0].0),
                            encode_utf8(es[j - 1].0),
                        );
                    }
                } else {
                    assert(r[i] == es[i - 1] && r[j] == es[j - 1]);
                }
            }
        }
    } else if encode_utf8(k) == encode_utf8(es[0].0) {
        assert(r == seq![(k, v)] + es.drop_first());
        assert forall|t: int| 0 <= t < r.len() implies (#[trigger] r[t] == (k, v) || exists|s: int|
            0 <= s < es.len() && es[s] == r[t]) by {
            if t > 0 {
                assert(es[t] == r[t]);
            }
        }
        if dict_entries_sorted(es) {
            assert forall|i: int, j: int| 0 <= i < j < r.len() implies bytes_lt(
                encode_utf8(#[trigger] r[i].0),
                encode_utf8(#[trigger] r[j].0),
            ) by {
                if i == 0 {
                    assert(r[j] == es[j]);
                    assert(bytes_lt(encode_utf8(es[0].0), encode_utf8(es[j].0)));
                } else {
                    assert(r[i] == es[i] && r[j] == es[j]);
                }
            }
        }
    } else {
        lemma_spec_dict_insert_facts(es.drop_first(), k, v);
        let rr = spec_dict_insert(es.drop_first(), k, v);
        assert(r == seq![es[0]] + rr);
        lemma_bytes_lt_trichotomy(encode_utf8(k), encode_utf8(es[0].0));
        assert(bytes_lt(encode_utf8(es[0].0), encode_utf8(k)));
        assert forall|t: int| 0 <= t < r.len() implies (#[trigger] r[t] == (k, v) || exists|s: int|
            0 <= s < es.len() && es[s] == r[t]) by {
            if t == 0 {
                assert(es[0] == r[0]);
            } else {
                assert(r[t] == rr[t - 1]);
                if rr[t - 1] == (k, v) {
                } else {
                    let s = choose|s: int|
                        0 <= s < es.drop_first().len() && es.drop_first()[s] == rr[t - 1];
                    assert(es[s + 1] == r[t]);
                }
            }
        }
        if dict_entries_sorted(es) {
            assert forall|i: int, j: int|
                0 <= i < j < es.drop_first().len() implies bytes_lt(
                    encode_utf8(#[trigger] es.drop_first()[i].0),
                    encode_utf8(#[trigger] es.drop_first()[j].0),
                ) by {
                assert(es.drop_first()[i] == es[i + 1]);
                assert(es.drop_first()[j] == es[j + 1]);
            }
            assert(dict_entries_sorted(es.drop_first()));
            assert(dict_entries_sorted(rr));
            assert forall|i: int, j: int| 0 <= i < j < r.len() implies bytes_lt(
                encode_utf8(#[trigger] r[i].0),
                encode_utf8(#[trigger] r[j].0),
            ) by {
                if i == 0 {
                    assert(r[j] == rr[j - 1]);
                    if rr[j - 1] == (k, v) {
                        assert(bytes_lt(encode_utf8(es[0].0), encode_utf8(k)));
                    } else {
                        let s = choose|s: int|
                            0 <= s < es.drop_first().len() && es.drop_first()[s] == rr[j - 1];
                        assert(es.drop_first()[s] == es[s + 1]);
                        assert(bytes_lt(encode_utf8(es[0].0), encode_utf8(es[s + 1].0)));
                    }
                } else {
                    assert(r[i] == rr[i - 1] && r[j] == rr[j - 1]);
                }
            }
        }
    }
}

} // verus!

verus! {

/// `spec_dict_insert` lands at the first position whose key is not below
/// the new key: it replaces an equal key there, or squeezes in before.
pub proof fn lemma_spec_dict_insert_at(
    es: Seq<(Seq<char>, BencodeValue)>,
    k: Seq<char>,
    v: BencodeValue,
    pos: int,
)
    requires
        0 <= pos <= es.len(),
        forall|t: int| 0 <= t < pos ==> bytes_lt(encode_utf8(#[trigger] es[t].0), encode_utf8(k)),
        pos < es.len() ==> !bytes_lt(encode_utf8(es[pos].0), encode_utf8(k)),
    ensures
        (pos < es.len() && encode_utf8(es[pos].0) == encode_utf8(k)) ==> spec_dict_insert(es, k, v)
            == es.take(pos) + seq![(k, v)] + es.skip(pos + 1),
        !(pos < es.len() && encode_utf8(es[pos].0) == encode_utf8(k)) ==> spec_dict_insert(
            es,
            k,
            v,
        ) == es.take(pos) + seq![(k, v)] + es.skip(pos),
    decreases es,
{
    if es.len() == 0 {
        assert(spec_dict_insert(es, k, v) =~= es.take(0) + seq![(k, v)] + es.skip(0));
    } else if pos == 0 {
        lemma_bytes_lt_trichotomy(encode_utf8(k), encode_utf8(es[0].0));
        if encode_utf8(es[0].0) == encode_utf8(k) {
            assert(spec_dict_insert(es, k, v) == seq![(k, v)] + es.drop_first());
            assert(seq![(k, v)] + es.drop_first() =~= es.take(0) + seq![(k, v)] + es.skip(1));
        } else {
            assert(bytes_lt(encode_utf8(k), encode_utf8(es[0].0)));
            assert(spec_dict_insert(es, k, v) == seq![(k, v)] + es);
            assert(seq![(k, v)] + es =~= es.take(0) + seq![(k, v)] + es.skip(0));
        }
    } else {
        assert(bytes_lt(encode_utf8(es[0].0), encode_utf8(k)));
        lemma_bytes_lt_trichotomy(encode_utf8(k), encode_utf8(es[0].0));
        let t = es.drop_first();
        assert forall|s: int| 0 <= s < pos - 1 implies bytes_lt(
            encode_utf8(#[trigger] t[s].0),
            encode_utf8(k),
        ) by {
            assert(t[s] == es[s + 1]);
        }
        assert(pos - 1 < t.len() ==> t[pos - 1] == es[pos]);
        lemma_spec_dict_insert_at(t, k, v, pos - 1);
        assert(spec_dict_insert(es, k, v) == seq![es[0]] + spec_dict_insert(t, k, v));
        if pos < es.len() && encode_utf8(es[pos].0) == encode_utf8(k) {
            assert(seq![es[0]] + (t.take(pos - 1) + seq![(k, v)] + t.skip(pos)) =~= es.take(pos)
                + seq![(k, v)] + es.skip(pos + 1));
        } else {
            assert(seq![es[0]] + (t.take(pos - 1) + seq![(k, v)] + t.skip(pos - 1)) =~= es.take(
                pos,
            ) + seq![(k, v)] + es.skip(pos));
        }
    }
}

/// Insert `key = val` into sorted dictionary entries, keeping the sort
/// and replacing an equal key.
pub fn dict_insert(es: &mut Vec<(String, BencodeElem)>, key: String, val: BencodeElem)
    ensures
        view_dict(final(es)@) == spec_dict_insert(view_dict(old(es)@), key@, val@),
{
    let ghost gs = view_dict(old(es)@);
    proof {
        lemma_view_dict_index(old(es)@);
    }
    let kb = str_to_bytes(key.as_str());
    let len: usize = es.len();
    let mut pos: usize = 0;
    let mut replace: bool = false;
    loop
        invariant_except_break
            !replace,
        invariant
            0 <= pos <= len,
            es@ == old(es)@,
            len == old(es)@.len(),
            gs == view_dict(old(es)@),
            gs.len() == len,
            kb@ == encode_utf8(key@),
            forall|t: int|
                0 <= t < len ==> #[trigger] gs[t] == (old(es)@[t].0@, view_elem(old(es)@[t].1)),
            forall|t: int|
                0 <= t < pos ==> bytes_lt(encode_utf8(#[trigger] gs[t].0), encode_utf8(key@)),
        ensures
            0 <= pos <= len,
            es@ == old(es)@,
            forall|t: int|
                0 <= t < pos ==> bytes_lt(encode_utf8(#[trigger] gs[t].0), encode_utf8(key@)),
            replace ==> pos < len && encode_utf8(gs[pos as int].0) == encode_utf8(key@),
            !replace ==> (pos == len || bytes_lt(
                encode_utf8(key@),
                encode_utf8(gs[pos as int].0),
            )),
        decreases len - pos,
    {
        if pos >= len {
            break;
        }
        let entry = &es[pos];
        let cb = str_to_bytes(entry.0.as_str());
        proof {
            assert(gs[pos as int].0 == entry.0@);
        }
        if bytes_lt_exec(kb.as_slice(), cb.as_slice()) {
            break;
        }
        if bytes_eq_exec(kb.as_slice(), cb.as_slice()) {
            replace = true;
            break;
        }
        proof {
            lemma_bytes_lt_trichotomy(encode_utf8(key@), encode_utf8(gs[pos as int].0));
        }
        pos = pos + 1;
    }
    proof {
        if pos < len {
            lemma_bytes_lt_trichotomy(encode_utf8(gs[pos as int].0), encode_utf8(key@));
        }
        lemma_spec_dict_insert_at(gs, key@, val@, pos as int);
    }
    if replace {
        es.remove(pos);
        es.insert(pos, (key, val));
        proof {
            lemma_view_dict_index(es@);
            lemma_view_dict_index(old(es)@);
            assert forall|t: int| 0 <= t < es@.len() implies view_dict(es@)[t] == (gs.take(
                pos as int,
            ) + seq![(key@, view_elem(val))] + gs.skip(pos + 1))[t] by {
                if t < pos {
                    assert(es@[t] == old(es)@[t]);
                } else if t > pos {
                    assert(es@[t] == old(es)@[t]);
                }
            }
            assert(view_dict(es@) =~= gs.take(pos as int) + seq![(key@, view_elem(val))]
                + gs.skip(pos + 1));
        }
    } else {
        es.insert(pos, (key, val));
        proof {
            lemma_view_dict_index(es@);
            lemma_view_dict_index(old(es)@);
            assert forall|t: int| 0 <= t < es@.len() implies view_dict(es@)[t] == (gs.take(
                pos as int,
            ) + seq![(key@, view_elem(val))] + gs.skip(pos as int))[t] by {
                if t < pos {
                    assert(es@[t] == old(es)@[t]);
                } else if t > pos {
                    assert(es@[t] == old(es)@[t - 1]);
                }
            }
            assert(view_dict(es@) =~= gs.take(pos as int) + seq![(key@, view_elem(val))]
                + gs.skip(pos as int));
        }
    }
}

/// Look up `key` among dictionary entries.
#[verifier::loop_isolation(false)]
pub fn dict_get<'a>(es: &'a Vec<(String, BencodeElem)>, key: &str) -> (r: Option<
    &'a BencodeElem,
>)
    ensures
        r matches Some(v) ==> spec_dict_get(view_dict(es@), key@) == Some(view_elem(*v)),
        r is None ==> spec_dict_get(view_dict(es@), key@) is None,
{
    let ghost gs = view_dict(es@);
    proof {
        lemma_view_dict_index(es@);
    }
    let len: usize = es.len();
    let mut t: usize = 0;
    proof {
        assert(gs.skip(0) =~= gs);
    }
    while t < len
        invariant
            0 <= t <= len,
            len == es@.len(),
            gs == view_dict(es@),
            spec_dict_get(gs, key@) == spec_dict_get(gs.skip(t as int), key@),
        decreases len - t,
    {
        let entry = &es[t];
        if crate::strings::str_eq(entry.0.as_str(), key) {
            proof {
                assert(gs.skip(t as int)[0] == gs[t as int]);
            }
            return Some(&entry.1);
        }
        proof {
            assert(gs.skip(t as int)[0] == gs[t as int]);
            assert(gs.skip(t as int).drop_first() =~= gs.skip(t + 1));
        }
        t = t + 1;
    }
    proof {
        assert(gs.skip(len as int).len() == 0);
    }
    None
}

/// The dictionary that results from writing each pair in turn: an equal
/// key overrides an earlier one.
pub open spec fn spec_dict_of(pairs: Seq<(Seq<char>, BencodeValue)>) -> Seq<
    (Seq<char>, BencodeValue),
>
    decreases pairs,
{
    if pairs.len() == 0 {
        Seq::empty()
    } else {
        spec_dict_insert(spec_dict_of(pairs.drop_last()), pairs.last().0, pairs.last().1)
    }
}

impl BencodeElem {
    /// A dictionary from the given pairs: entries come out sorted by key
    /// bytes, and a repeated key keeps its last value.
    #[verifier::loop_isolation(false)]
    pub fn dictionary(pairs: Vec<(String, BencodeElem)>) -> (r: BencodeElem)
        ensures
            r@ == BencodeValue::Dictionary(spec_dict_of(view_dict(pairs@))),
            dict_entries_sorted(spec_dict_of(view_dict(pairs@))),
    {
        let ghost orig = pairs@;
        let ghost gp = view_dict(pairs@);
        proof {
            lemma_view_dict_index(orig);
        }
        let mut pairs = pairs;
        let mut es: Vec<(String, BencodeElem)> = Vec::new();
        let ghost mut done: int = 0;
        proof {
            assert(gp.take(0) =~= Seq::<(Seq<char>, BencodeValue)>::empty());
            assert(view_dict(es@) =~= Seq::<(Seq<char>, BencodeValue)>::empty());
            assert(pairs@ =~= orig.skip(0));
        }
        while pairs.len() > 0
            invariant
                0 <= done <= orig.len(),
                done + pairs@.len() == orig.len(),
                pairs@ =~= orig.skip(done),
                gp == view_dict(orig),
                gp.len() == orig.len(),
                forall|t: int|
                    0 <= t < orig.len() ==> #[trigger] gp[t] == (orig[t].0@, view_elem(
                        orig[t].1,
                    )),
                view_dict(es@) == spec_dict_of(gp.take(done)),
                dict_entries_sorted(view_dict(es@)),
            decreases pairs@.len(),
        {
            let p = pairs.remove(0);
            proof {
                assert(orig.skip(done)[0] == orig[done]);
                assert(p == orig[done]);
                assert(gp[done] == (p.0@, view_elem(p.1)));
                assert(pairs@ =~= orig.skip(done + 1));
            }
            let ghost old_es = view_dict(es@);
            dict_insert(&mut es, p.0, p.1);
            proof {
                lemma_spec_dict_insert_facts(old_es, gp[done].0, gp[done].1);
                assert(gp.take(done + 1).drop_last() =~= gp.take(done));
                assert(gp.take(done + 1).last() == gp[done]);
                done = done + 1;
            }
        }
        proof {
            assert(gp.take(done) =~= gp);
        }
        BencodeElem::Dictionary(es)
    }
}

} // verus!

verus! {

use vstd::utf8::{valid_utf8, valid_utf8_concat};
use crate::strings::{hex_bytes, hex_byte, bytes_to_utf8, lemma_ascii_chars_encode};

/// The UTF-8 bytes of one value's display form: strings quoted, raw
/// bytes listed in `0x..` form, lists bracketed, dictionaries braced
/// with `(key, value)` pairs in their stored order, raw keys written in
/// hexadecimal.
pub open spec fn display_bytes(v: BencodeValue) -> Seq<u8>
    decreases v,
{
    match v {
        BencodeValue::String(s) => seq![0x22u8] + vstd::utf8::encode_utf8(s) + seq![0x22u8],
        BencodeValue::Bytes(b) => seq![0x5bu8] + display_byte_items(b) + seq![0x5du8],
        BencodeValue::Integer(i) => int_digits(i),
        BencodeValue::List(xs) => seq![0x5bu8] + display_list_items(xs) + seq![0x5du8],
        BencodeValue::Dictionary(es) => seq![0x7bu8, 0x20u8] + display_dict_items(es) + seq![
            0x20u8,
            0x7du8,
        ],
        BencodeValue::RawDictionary(es) => seq![0x7bu8, 0x20u8] + display_raw_dict_items(es)
            + seq![0x20u8, 0x7du8],
    }
}

/// `0xab, 0x5, ...` for each byte.
pub open spec fn display_byte_items(b: Seq<u8>) -> Seq<u8>
    decreases b,
{
    if b.len() == 0 {
        Seq::empty()
    } else if b.len() == 1 {
        seq![0x30u8, 0x78u8] + hex_byte(b[0])
    } else {
        display_byte_items(b.drop_last()) + seq![0x2cu8, 0x20u8] + seq![0x30u8, 0x78u8]
            + hex_byte(b.last())
    }
}

/// Displayed elements joined by `, `.
pub open spec fn display_list_items(xs: Seq<BencodeValue>) -> Seq<u8>
    decreases xs,
{
    if xs.len() == 0 {
        Seq::empty()
    } else if xs.len() == 1 {
        display_bytes(xs[0])
    } else {
        display_list_items(xs.drop_last()) + seq![0x2cu8, 0x20u8] + display_bytes(xs.last())
    }
}

/// `("key", value)` for one entry with a UTF-8 key.
pub open spec fn display_dict_entry(e: (Seq<char>, BencodeValue)) -> Seq<u8>
    decreases e,
{
    seq![0x28u8, 0x22u8] + vstd::utf8::encode_utf8(e.0) + seq![0x22u8, 0x2cu8, 0x20u8]
        + display_bytes(e.1) + seq![0x29u8]
}

/// Displayed entries joined by `, `.
pub open spec fn display_dict_items(es: Seq<(Seq<char>, BencodeValue)>) -> Seq<u8>
    decreases es,
{
    if es.len() == 0 {
        Seq::empty()
    } else if es.len() == 1 {
        display_dict_entry(es[0])
    } else {
        display_dict_items(es.drop_last()) + seq![0x2cu8, 0x20u8] + display_dict_entry(es.last())
    }
}

/// `(hexkey, value)` for one entry with a raw key.
pub open spec fn display_raw_dict_entry(e: (Seq<u8>, BencodeValue)) -> Seq<u8>
    decreases e,
{
    seq![0x28u8, 0x22u8] + hex_bytes(e.0) + seq![0x22u8, 0x2cu8, 0x20u8] + display_bytes(e.1)
        + seq![0x29u8]
}

/// Displayed raw entries joined by `, `.
pub open spec fn display_raw_dict_items(es: Seq<(Seq<u8>, BencodeValue)>) -> Seq<u8>
    decreases es,
{
    if es.len() == 0 {
        Seq::empty()
    } else if es.len() == 1 {
        display_raw_dict_entry(es[0])
    } else {
        display_raw_dict_items(es.drop_last()) + seq![0x2cu8, 0x20u8] + display_raw_dict_entry(
            es.last(),
        )
    }
}

} // verus!

verus! {

/// Pure ASCII is valid UTF-8; used for the fixed display glyphs.
proof fn lemma_ascii_valid(b: Seq<u8>)
    requires
        forall|i: int| 0 <= i < b.len() ==> #[trigger] b[i] < 0x80,
    ensures
        valid_utf8(b),
{
    lemma_ascii_chars_encode(b);
}

/// Every display form is valid UTF-8.
pub proof fn lemma_display_valid(v: BencodeValue)
    ensures
        valid_utf8(display_bytes(v)),
    decreases v,
{
    broadcast use valid_utf8_concat;

    match v {
        BencodeValue::String(s) => {
            assert(valid_utf8(seq![0x22u8])) by {
                lemma_ascii_valid(seq![0x22u8]);
            }
            vstd::utf8::encode_utf8_valid_utf8(s);
            assert(valid_utf8(seq![0x22u8] + vstd::utf8::encode_utf8(s)));
            assert(valid_utf8((seq![0x22u8] + vstd::utf8::encode_utf8(s)) + seq![0x22u8]));
        },
        BencodeValue::Bytes(b) => {
            lemma_display_byte_items_valid(b);
            assert(valid_utf8(seq![0x5bu8])) by {
                lemma_ascii_valid(seq![0x5bu8]);
            }
            assert(valid_utf8(seq![0x5du8])) by {
                lemma_ascii_valid(seq![0x5du8]);
            }
            assert(valid_utf8(seq![0x5bu8] + display_byte_items(b)));
            assert(valid_utf8((seq![0x5bu8] + display_byte_items(b)) + seq![0x5du8]));
        },
        BencodeValue::Integer(i) => {
            lemma_int_digits_ascii(i);
            lemma_ascii_valid(int_digits(i));
        },
        BencodeValue::List(xs) => {
            lemma_display_list_items_valid(xs);
            assert(valid_utf8(seq![0x5bu8])) by {
                lemma_ascii_valid(seq![0x5bu8]);
            }
            assert(valid_utf8(seq![0x5du8])) by {
                lemma_ascii_valid(seq![0x5du8]);
            }
            assert(valid_utf8(seq![0x5bu8] + display_list_items(xs)));
            assert(valid_utf8((seq![0x5bu8] + display_list_items(xs)) + seq![0x5du8]));
        },
        BencodeValue::Dictionary(es) => {
            lemma_display_dict_items_valid(es);
            assert(valid_utf8(seq![0x7bu8, 0x20u8])) by {
                lemma_ascii_valid(seq![0x7bu8, 0x20u8]);
            }
            assert(valid_utf8(seq![0x20u8, 0x7du8])) by {
                lemma_ascii_valid(seq![0x20u8, 0x7du8]);
            }
            assert(valid_utf8(seq![0x7bu8, 0x20u8] + display_dict_items(es)));
            assert(valid_utf8((seq![0x7bu8, 0x20u8] + display_dict_items(es)) + seq![
                0x20u8,
                0x7du8,
            ]));
        },
        BencodeValue::RawDictionary(es) => {
            lemma_display_raw_dict_items_valid(es);
            assert(valid_utf8(seq![0x7bu8, 0x20u8])) by {
                lemma_ascii_valid(seq![0x7bu8, 0x20u8]);
            }
            assert(valid_utf8(seq![0x20u8, 0x7du8])) by {
                lemma_ascii_valid(seq![0x20u8, 0x7du8]);
            }
            assert(valid_utf8(seq![0x7bu8, 0x20u8] + display_raw_dict_items(es)));
            assert(valid_utf8((seq![0x7bu8, 0x20u8] + display_raw_dict_items(es)) + seq![
                0x20u8,
                0x7du8,
            ]));
        },
    }
}

/// Decimal digit runs are ASCII.
pub proof fn lemma_dec_digits_ascii(n: nat)
    ensures
        forall|i: int| 0 <= i < dec_digits(n).len() ==> #[trigger] dec_digits(n)[i] < 0x80,
    decreases n,
{
    if n >= 10 {
        lemma_dec_digits_ascii(n / 10);
        assert forall|i: int| 0 <= i < dec_digits(n).len() implies #[trigger] dec_digits(n)[i]
            < 0x80 by {
            if i < dec_digits(n / 10).len() {
                assert(dec_digits(n)[i] == dec_digits(n / 10)[i]);
            } else {
                assert(dec_digits(n)[i] == ((n % 10) + 0x30) as u8);
            }
        }
    }
}

/// Integer display forms are ASCII.
pub proof fn lemma_int_digits_ascii(n: int)
    ensures
        forall|i: int| 0 <= i < int_digits(n).len() ==> #[trigger] int_digits(n)[i] < 0x80,
{
    if n < 0 {
        lemma_dec_digits_ascii((-n) as nat);
        assert forall|i: int| 0 <= i < int_digits(n).len() implies #[trigger] int_digits(n)[i]
            < 0x80 by {
            if i > 0 {
                assert(int_digits(n)[i] == dec_digits((-n) as nat)[i - 1]);
            } else {
                assert(int_digits(n)[0] == 0x2du8);
            }
        }
    } else {
        lemma_dec_digits_ascii(n as nat);
    }
}

proof fn lemma_display_byte_items_valid(b: Seq<u8>)
    ensures
        valid_utf8(display_byte_items(b)),
    decreases b,
{
    broadcast use valid_utf8_concat;

    crate::strings::lemma_hex_bytes_ascii(b);
    if b.len() == 0 {
        lemma_ascii_valid(display_byte_items(b));
    } else {
        lemma_display_byte_items_valid(b.drop_last());
        assert(valid_utf8(hex_byte(b.last()))) by {
            crate::strings::lemma_hex_bytes_ascii(seq![b.last()]);
            assert(hex_bytes(seq![b.last()]) =~= hex_byte(b.last())) by {
                assert(seq![b.last()].drop_last() =~= Seq::<u8>::empty());
                assert(seq![b.last()].last() == b.last());
                assert(hex_bytes(Seq::<u8>::empty()) =~= Seq::<u8>::empty());
                assert(Seq::<u8>::empty() + hex_byte(b.last()) =~= hex_byte(b.last()));
            }
            lemma_ascii_valid(hex_byte(b.last()));
        }
        assert(valid_utf8(seq![0x2cu8, 0x20u8])) by {
            lemma_ascii_valid(seq![0x2cu8, 0x20u8]);
        }
        assert(valid_utf8(seq![0x30u8, 0x78u8])) by {
            lemma_ascii_valid(seq![0x30u8, 0x78u8]);
        }
        let pre = display_byte_items(b.drop_last());
        assert(valid_utf8(pre + seq![0x2cu8, 0x20u8]));
        assert(valid_utf8((pre + seq![0x2cu8, 0x20u8]) + seq![0x30u8, 0x78u8]));
        assert(valid_utf8(((pre + seq![0x2cu8, 0x20u8]) + seq![0x30u8, 0x78u8]) + hex_byte(
            b.last(),
        )));
    }
}

proof fn lemma_display_list_items_valid(xs: Seq<BencodeValue>)
    ensures
        valid_utf8(display_list_items(xs)),
    decreases xs,
{
    broadcast use valid_utf8_concat;

    if xs.len() == 0 {
        lemma_ascii_valid(display_list_items(xs));
    } else if xs.len() == 1 {
        lemma_display_valid(xs[0]);
    } else {
        lemma_display_list_items_valid(xs.drop_last());
        lemma_display_valid(xs.last());
        assert(valid_utf8(seq![0x2cu8, 0x20u8])) by {
            lemma_ascii_valid(seq![0x2cu8, 0x20u8]);
        }
        let pre = display_list_items(xs.drop_last());
        assert(valid_utf8(pre + seq![0x2cu8, 0x20u8]));
        assert(valid_utf8((pre + seq![0x2cu8, 0x20u8]) + display_bytes(xs.last())));
    }
}

proof fn lemma_display_dict_entry_valid(e: (Seq<char>, BencodeValue))
    ensures
        valid_utf8(display_dict_entry(e)),
    decreases e,
{
    broadcast use valid_utf8_concat;

    vstd::utf8::encode_utf8_valid_utf8(e.0);
    lemma_display_valid(e.1);
    assert(valid_utf8(seq![0x28u8, 0x22u8])) by {
        lemma_ascii_valid(seq![0x28u8, 0x22u8]);
    }
    assert(valid_utf8(seq![0x22u8, 0x2cu8, 0x20u8])) by {
        lemma_ascii_valid(seq![0x22u8, 0x2cu8, 0x20u8]);
    }
    assert(valid_utf8(seq![0x29u8])) by {
        lemma_ascii_valid(seq![0x29u8]);
    }
    let a = seq![0x28u8, 0x22u8] + vstd::utf8::encode_utf8(e.0);
    assert(valid_utf8(a));
    assert(valid_utf8(a + seq![0x22u8, 0x2cu8, 0x20u8]));
    assert(valid_utf8((a + seq![0x22u8, 0x2cu8, 0x20u8]) + display_bytes(e.1)));
    assert(valid_utf8(((a + seq![0x22u8, 0x2cu8, 0x20u8]) + display_bytes(e.1)) + seq![0x29u8]));
}

proof fn lemma_display_dict_items_valid(es: Seq<(Seq<char>, BencodeValue)>)
    ensures
        valid_utf8(display_dict_items(es)),
    decreases es,
{
    broadcast use valid_utf8_concat;

    if es.len() == 0 {
        lemma_ascii_valid(display_dict_items(es));
    } else if es.len() == 1 {
        lemma_display_dict_entry_valid(es[0]);
    } else {
        lemma_display_dict_items_valid(es.drop_last());
        lemma_display_dict_entry_valid(es.last());
        assert(valid_utf8(seq![0x2cu8, 0x20u8])) by {
            lemma_ascii_valid(seq![0x2cu8, 0x20u8]);
        }
        let pre = display_dict_items(es.drop_last());
        assert(valid_utf8(pre + seq![0x2cu8, 0x20u8]));
        assert(valid_utf8((pre + seq![0x2cu8, 0x20u8]) + display_dict_entry(es.last())));
    }
}

proof fn lemma_display_raw_dict_entry_valid(e: (Seq<u8>, BencodeValue))
    ensures
        valid_utf8(display_raw_dict_entry(e)),
    decreases e,
{
    broadcast use valid_utf8_concat;

    crate::strings::lemma_hex_bytes_ascii(e.0);
    lemma_ascii_valid(hex_bytes(e.0));
    lemma_display_valid(e.1);
    assert(valid_utf8(seq![0x28u8, 0x22u8])) by {
        lemma_ascii_valid(seq![0x28u8, 0x22u8]);
    }
    assert(valid_utf8(seq![0x22u8, 0x2cu8, 0x20u8])) by {
        lemma_ascii_valid(seq![0x22u8, 0x2cu8, 0x20u8]);
    }
    assert(valid_utf8(seq![0x29u8])) by {
        lemma_ascii_valid(seq![0x29u8]);
    }
    let a = seq![0x28u8, 0x22u8] + hex_bytes(e.0);
    assert(valid_utf8(a));
    assert(valid_utf8(a + seq![0x22u8, 0x2cu8, 0x20u8]));
    assert(valid_utf8((a + seq![0x22u8, 0x2cu8, 0x20u8]) + display_bytes(e.1)));
    assert(valid_utf8(((a + seq![0x22u8, 0x2cu8, 0x20u8]) + display_bytes(e.1)) + seq![0x29u8]));
}

proof fn lemma_display_raw_dict_items_valid(es: Seq<(Seq<u8>, BencodeValue)>)
    ensures
        valid_utf8(display_raw_dict_items(es)),
    decreases es,
{
    broadcast use valid_utf8_concat;

    if es.len() == 0 {
        lemma_ascii_valid(display_raw_dict_items(es));
    } else if es.len() == 1 {
        lemma_display_raw_dict_entry_valid(es[0]);
    } else {
        lemma_display_raw_dict_items_valid(es.drop_last());
        lemma_display_raw_dict_entry_valid(es.last());
        assert(valid_utf8(seq![0x2cu8, 0x20u8])) by {
            lemma_ascii_valid(seq![0x2cu8, 0x20u8]);
        }
        let pre = display_raw_dict_items(es.drop_last());
        assert(valid_utf8(pre + seq![0x2cu8, 0x20u8]));
        assert(valid_utf8((pre + seq![0x2cu8, 0x20u8]) + display_raw_dict_entry(es.last())));
    }
}

} // verus!

verus! {

pub proof fn lemma_display_byte_items_take(b: Seq<u8>, i: int)
    requires
        0 <= i < b.len(),
    ensures
        display_byte_items(b.take(i + 1)) == display_byte_items(b.take(i)) + (if i == 0 {
            Seq::empty()
        } else {
            seq![0x2cu8, 0x20u8]
        }) + seq![0x30u8, 0x78u8] + hex_byte(b[i]),
    decreases b,
{
    if i + 1 == b.len() {
        assert(b.take(i + 1) =~= b);
        assert(b.take(i) =~= b.drop_last());
        if i == 0 {
            assert(display_byte_items(b.take(0)) =~= Seq::<u8>::empty());
            assert(display_byte_items(b) =~= ((display_byte_items(b.take(0)) + Seq::<u8>::empty())
                + seq![0x30u8, 0x78u8]) + hex_byte(b[0]));
        } else {
            assert(display_byte_items(b) =~= ((display_byte_items(b.take(i)) + seq![
                0x2cu8,
                0x20u8,
            ]) + seq![0x30u8, 0x78u8]) + hex_byte(b[i]));
        }
    } else {
        lemma_display_byte_items_take(b.drop_last(), i);
        assert(b.drop_last().take(i + 1) =~= b.take(i + 1));
        assert(b.drop_last().take(i) =~= b.take(i));
    }
}

pub proof fn lemma_display_list_items_take(xs: Seq<BencodeValue>, i: int)
    requires
        0 <= i < xs.len(),
    ensures
        display_list_items(xs.take(i + 1)) == display_list_items(xs.take(i)) + (if i == 0 {
            Seq::empty()
        } else {
            seq![0x2cu8, 0x20u8]
        }) + display_bytes(xs[i]),
    decreases xs,
{
    if i + 1 == xs.len() {
        assert(xs.take(i + 1) =~= xs);
        assert(xs.take(i) =~= xs.drop_last());
        if i == 0 {
            assert(display_list_items(xs.take(0)) =~= Seq::<u8>::empty());
            assert(display_list_items(xs) =~= (display_list_items(xs.take(0))
                + Seq::<u8>::empty()) + display_bytes(xs[0]));
        } else {
            assert(display_list_items(xs) =~= (display_list_items(xs.take(i)) + seq![
                0x2cu8,
                0x20u8,
            ]) + display_bytes(xs[i]));
        }
    } else {
        lemma_display_list_items_take(xs.drop_last(), i);
        assert(xs.drop_last().take(i + 1) =~= xs.take(i + 1));
        assert(xs.drop_last().take(i) =~= xs.take(i));
    }
}

pub proof fn lemma_display_dict_items_take(es: Seq<(Seq<char>, BencodeValue)>, i: int)
    requires
        0 <= i < es.len(),
    ensures
        display_dict_items(es.take(i + 1)) == display_dict_items(es.take(i)) + (if i == 0 {
            Seq::empty()
        } else {
            seq![0x2cu8, 0x20u8]
        }) + display_dict_entry(es[i]),
    decreases es,
{
    if i + 1 == es.len() {
        assert(es.take(i + 1) =~= es);
        assert(es.take(i) =~= es.drop_last());
        if i == 0 {
            assert(display_dict_items(es.take(0)) =~= Seq::<u8>::empty());
            assert(display_dict_items(es) =~= (display_dict_items(es.take(0))
                + Seq::<u8>::empty()) + display_dict_entry(es[0]));
        } else {
            assert(display_dict_items(es) =~= (display_dict_items(es.take(i)) + seq![
                0x2cu8,
                0x20u8,
            ]) + display_dict_entry(es[i]));
        }
    } else {
        lemma_display_dict_items_take(es.drop_last(), i);
        assert(es.drop_last().take(i + 1) =~= es.take(i + 1));
        assert(es.drop_last().take(i) =~= es.take(i));
    }
}

pub proof fn lemma_display_raw_dict_items_take(es: Seq<(Seq<u8>, BencodeValue)>, i: int)
    requires
        0 <= i < es.len(),
    ensures
        display_raw_dict_items(es.take(i + 1)) == display_raw_dict_items(es.take(i)) + (if i
            == 0 {
            Seq::empty()
        } else {
            seq![0x2cu8, 0x20u8]
        }) + display_raw_dict_entry(es[i]),
    decreases es,
{
    if i + 1 == es.len() {
        assert(es.take(i + 1) =~= es);
        assert(es.take(i) =~= es.drop_last());
        if i == 0 {
            assert(display_raw_dict_items(es.take(0)) =~= Seq::<u8>::empty());
            assert(display_raw_dict_items(es) =~= (display_raw_dict_items(es.take(0))
                + Seq::<u8>::empty()) + display_raw_dict_entry(es[0]));
        } else {
            assert(display_raw_dict_items(es) =~= (display_raw_dict_items(es.take(i)) + seq![
                0x2cu8,
                0x20u8,
            ]) + display_raw_dict_entry(es[i]));
        }
    } else {
        lemma_display_raw_dict_items_take(es.drop_last(), i);
        assert(es.drop_last().take(i + 1) =~= es.take(i + 1));
        assert(es.drop_last().take(i) =~= es.take(i));
    }
}

/// Append `0x` and the hexadecimal form of one byte.
fn push_hex_byte(x: u8, out: &mut Vec<u8>)
    ensures
        final(out)@ == old(out)@ + seq![0x30u8, 0x78u8] + hex_byte(x),
{
    out.push(0x30);
    out.push(0x78);
    if x < 16 {
        let d: u8 = if x < 10 {
            0x30 + x
        } else {
            0x57 + x
        };
        out.push(d);
        proof {
            assert(final(out)@ =~= old(out)@ + seq![0x30u8, 0x78u8] + hex_byte(x));
        }
    } else {
        let hi = x / 16;
        let lo = x % 16;
        let hb: u8 = if hi < 10 {
            0x30 + hi
        } else {
            0x57 + hi
        };
        let lb: u8 = if lo < 10 {
            0x30 + lo
        } else {
            0x57 + lo
        };
        out.push(hb);
        out.push(lb);
        proof {
            assert(final(out)@ =~= old(out)@ + seq![0x30u8, 0x78u8] + hex_byte(x));
        }
    }
}

impl BencodeElem {
    /// Append this element's display form to `out`.
    #[verifier::loop_isolation(false)]
    #[verifier::rlimit(100)]
    fn display_into(&self, out: &mut Vec<u8>)
        ensures
            final(out)@ == old(out)@ + display_bytes(self@),
        decreases *self,
    {
        broadcast use vstd::std_specs::vec::group_vec_axioms;

        match self {
            BencodeElem::String(s) => {
                out.push(0x22);
                let bs = crate::strings::str_to_bytes(s.as_str());
                push_bytes(bs.as_slice(), out);
                out.push(0x22);
                proof {
                    assert(final(out)@ =~= old(out)@ + display_bytes(self@));
                }
            },
            BencodeElem::Bytes(b) => {
                out.push(0x5b);
                let n: usize = b.len();
                let mut k: usize = 0;
                proof {
                    assert(b@.take(0) =~= Seq::<u8>::empty());
                    assert(out@ =~= old(out)@ + seq![0x5bu8] + display_byte_items(b@.take(0)));
                }
                while k < n
                    invariant
                        0 <= k <= n,
                        n == b@.len(),
                        out@ == old(out)@ + seq![0x5bu8] + display_byte_items(b@.take(k as int)),
                    decreases n - k,
                {
                    if k > 0 {
                        out.push(0x2c);
                        out.push(0x20);
                    }
                    push_hex_byte(b[k], out);
                    proof {
                        lemma_display_byte_items_take(b@, k as int);
                        assert(out@ =~= old(out)@ + seq![0x5bu8] + display_byte_items(
                            b@.take(k + 1),
                        ));
                    }
                    k = k + 1;
                }
                out.push(0x5d);
                proof {
                    assert(b@.take(n as int) =~= b@);
                    assert(final(out)@ =~= old(out)@ + display_bytes(self@));
                }
            },
            BencodeElem::Integer(i) => {
                crate::strings::push_dec_i64(*i, out);
            },
            BencodeElem::List(xs) => {
                out.push(0x5b);
                proof {
                    lemma_view_list_index(xs@);
                }
                let ghost vxs = view_list(xs@);
                let n: usize = xs.len();
                let mut k: usize = 0;
                proof {
                    assert(vxs.take(0) =~= Seq::<BencodeValue>::empty());
                    assert(out@ =~= old(out)@ + seq![0x5bu8] + display_list_items(vxs.take(0)));
                }
                while k < n
                    invariant
                        0 <= k <= n,
                        n == xs@.len(),
                        vxs == view_list(xs@),
                        vxs.len() == n,
                        forall|j: int| 0 <= j < n ==> vxs[j] == view_elem(xs@[j]),
                        out@ == old(out)@ + seq![0x5bu8] + display_list_items(
                            vxs.take(k as int),
                        ),
                    decreases n - k,
                {
                    if k > 0 {
                        out.push(0x2c);
                        out.push(0x20);
                    }
                    let elem = &xs[k];
                    elem.display_into(out);
                    proof {
                        lemma_display_list_items_take(vxs, k as int);
                        assert(out@ =~= old(out)@ + seq![0x5bu8] + display_list_items(
                            vxs.take(k + 1),
                        ));
                    }
                    k = k + 1;
                }
                out.push(0x5d);
                proof {
                    assert(vxs.take(n as int) =~= vxs);
                    assert(final(out)@ =~= old(out)@ + display_bytes(self@));
                }
            },
            BencodeElem::Dictionary(es) => {
                out.push(0x7b);
                out.push(0x20);
                proof {
                    lemma_view_dict_index(es@);
                }
                let ghost ves = view_dict(es@);
                let n: usize = es.len();
                let mut k: usize = 0;
                proof {
                    assert(ves.take(0) =~= Seq::<(Seq<char>, BencodeValue)>::empty());
                    assert(out@ =~= old(out)@ + seq![0x7bu8, 0x20u8] + display_dict_items(
                        ves.take(0),
                    ));
                }
                while k < n
                    invariant
                        0 <= k <= n,
                        n == es@.len(),
                        ves == view_dict(es@),
                        ves.len() == n,
                        forall|j: int|
                            0 <= j < n ==> ves[j] == (es@[j].0@, view_elem(es@[j].1)),
                        out@ == old(out)@ + seq![0x7bu8, 0x20u8] + display_dict_items(
                            ves.take(k as int),
                        ),
                    decreases n - k,
                {
                    if k > 0 {
                        out.push(0x2c);
                        out.push(0x20);
                    }
                    let pair = &es[k];
                    out.push(0x28);
                    out.push(0x22);
                    let kb = crate::strings::str_to_bytes(pair.0.as_str());
                    push_bytes(kb.as_slice(), out);
                    out.push(0x22);
                    out.push(0x2c);
                    out.push(0x20);
                    pair.1.display_into(out);
                    out.push(0x29);
                    proof {
                        lemma_display_dict_items_take(ves, k as int);
                        assert(out@ =~= old(out)@ + seq![0x7bu8, 0x20u8] + display_dict_items(
                            ves.take(k + 1),
                        ));
                    }
                    k = k + 1;
                }
                out.push(0x20);
                out.push(0x7d);
                proof {
                    assert(ves.take(n as int) =~= ves);
                    assert(final(out)@ =~= old(out)@ + display_bytes(self@));
                }
            },
            BencodeElem::RawDictionary(es) => {
                out.push(0x7b);
                out.push(0x20);
                proof {
                    lemma_view_raw_dict_index(es@);
                }
                let ghost ves = view_raw_dict(es@);
                let n: usize = es.len();
                let mut k: usize = 0;
                proof {
                    assert(ves.take(0) =~= Seq::<(Seq<u8>, BencodeValue)>::empty());
                    assert(out@ =~= old(out)@ + seq![0x7bu8, 0x20u8] + display_raw_dict_items(
                        ves.take(0),
                    ));
                }
                while k < n
                    invariant
                        0 <= k <= n,
                        n == es@.len(),
                        ves == view_raw_dict(es@),
                        ves.len() == n,
                        forall|j: int|
                            0 <= j < n ==> ves[j] == (es@[j].0@, view_elem(es@[j].1)),
                        out@ == old(out)@ + seq![0x7bu8, 0x20u8] + display_raw_dict_items(
                            ves.take(k as int),
                        ),
                    decreases n - k,
                {
                    if k > 0 {
                        out.push(0x2c);
                        out.push(0x20);
                    }
                    let pair = &es[k];
                    out.push(0x28);
                    out.push(0x22);
                    crate::strings::push_hex(pair.0.as_slice(), out);
                    out.push(0x22);
                    out.push(0x2c);
                    out.push(0x20);
                    pair.1.display_into(out);
                    out.push(0x29);
                    proof {
                        lemma_display_raw_dict_items_take(ves, k as int);
                        assert(out@ =~= old(out)@ + seq![0x7bu8, 0x20u8]
                            + display_raw_dict_items(ves.take(k + 1)));
                    }
                    k = k + 1;
                }
                out.push(0x20);
                out.push(0x7d);
                proof {
                    assert(ves.take(n as int) =~= ves);
                    assert(final(out)@ =~= old(out)@ + display_bytes(self@));
                }
            },
        }
    }

    /// This element's display form: the text its `Display` would print.
    pub fn to_display_string(&self) -> (r: String)
        ensures
            vstd::utf8::encode_utf8(r@) == display_bytes(self@),
    {
        let mut out: Vec<u8> = Vec::new();
        self.display_into(&mut out);
        proof {
            assert(out@ =~= display_bytes(self@));
            lemma_display_valid(self@);
        }
        match bytes_to_utf8(out.as_slice()) {
            Some(s) => s,
            None => {
                proof {
                    assert(false);
                }
                String::new()
            },
        }
    }
}

} // verus!

verus! {

impl BencodeElem {
    /// A structurally equal copy of this element.
    #[verifier::loop_isolation(false)]
    pub fn deep_clone(&self) -> (r: BencodeElem)
        ensures
            r@ == self@,
        decreases *self,
    {
        broadcast use vstd::std_specs::vec::group_vec_axioms;

        match self {
            BencodeElem::String(s) => BencodeElem::String(s.clone()),
            BencodeElem::Bytes(b) => {
                let mut nb: Vec<u8> = Vec::new();
                push_bytes(b.as_slice(), &mut nb);
                proof {
                    assert(nb@ =~= b@);
                }
                BencodeElem::Bytes(nb)
            },
            BencodeElem::Integer(i) => BencodeElem::Integer(*i),
            BencodeElem::List(xs) => {
                proof {
                    lemma_view_list_index(xs@);
                }
                let n: usize = xs.len();
                let mut out: Vec<BencodeElem> = Vec::new();
                let mut k: usize = 0;
                proof {
                    lemma_view_list_index(out@);
                }
                while k < n
                    invariant
                        0 <= k <= n,
                        n == xs@.len(),
                        out@.len() == k,
                        forall|t: int|
                            0 <= t < k ==> view_elem(#[trigger] out@[t]) == view_elem(xs@[t]),
                    decreases n - k,
                {
                    let c = xs[k].deep_clone();
                    out.push(c);
                    k = k + 1;
                }
                proof {
                    lemma_view_list_index(out@);
                    assert(view_list(out@) =~= view_list(xs@));
                }
                BencodeElem::List(out)
            },
            BencodeElem::Dictionary(es) => {
                proof {
                    lemma_view_dict_index(es@);
                }
                let n: usize = es.len();
                let mut out: Vec<(String, BencodeElem)> = Vec::new();
                let mut k: usize = 0;
                while k < n
                    invariant
                        0 <= k <= n,
                        n == es@.len(),
                        out@.len() == k,
                        forall|t: int|
                            0 <= t < k ==> (#[trigger] out@[t]).0@ == es@[t].0@ && view_elem(
                                out@[t].1,
                            ) == view_elem(es@[t].1),
                    decreases n - k,
                {
                    let pair = &es[k];
                    let key = pair.0.clone();
                    let val = pair.1.deep_clone();
                    out.push((key, val));
                    k = k + 1;
                }
                proof {
                    lemma_view_dict_index(out@);
                    assert(view_dict(out@) =~= view_dict(es@));
                }
                BencodeElem::Dictionary(out)
            },
            BencodeElem::RawDictionary(es) => {
                proof {
                    lemma_view_raw_dict_index(es@);
                }
                let n: usize = es.len();
                let mut out: Vec<(Vec<u8>, BencodeElem)> = Vec::new();
                let mut k: usize = 0;
                while k < n
                    invariant
                        0 <= k <= n,
                        n == es@.len(),
                        out@.len() == k,
                        forall|t: int|
                            0 <= t < k ==> (#[trigger] out@[t]).0@ == es@[t].0@ && view_elem(
                                out@[t].1,
                            ) == view_elem(es@[t].1),
                    decreases n - k,
                {
                    let pair = &es[k];
                    let mut key: Vec<u8> = Vec::new();
                    push_bytes(pair.0.as_slice(), &mut key);
                    proof {
                        assert(key@ =~= pair.0@);
                    }
                    let val = pair.1.deep_clone();
                    out.push((key, val));
                    k = k + 1;
                }
                proof {
                    lemma_view_raw_dict_index(out@);
                    assert(view_raw_dict(out@) =~= view_raw_dict(es@));
                }
                BencodeElem::RawDictionary(out)
            },
        }
    }
}

} // verus!
