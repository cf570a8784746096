use vstd::prelude::*;

verus! {

use vstd::utf8::{valid_utf8, decode_utf8, encode_utf8};
use crate::bencode::{bytes_lt, dec_digits, int_digits};

/// Relies on `core::str::from_utf8` followed by `str::to_owned`: the
/// conversion succeeds exactly on valid UTF-8 and the returned string's
/// UTF-8 bytes are the input bytes.
#[verifier::external_body]
pub fn bytes_to_utf8(b: &[u8]) -> (r: Option<String>)
    ensures
        r is Some <==> valid_utf8(b@),
        r matches Some(s) ==> encode_utf8(s@) == b@,
{
    match core::str::from_utf8(b) {
        Ok(s) => Some(s.to_owned()),
        Err(_) => None,
    }
}

/// The UTF-8 bytes of a string, as a fresh vector.
pub fn str_to_bytes(s: &str) -> (r: Vec<u8>)
    ensures
        r@ == encode_utf8(s@),
{
    vstd::string::StrSliceExecFns::as_bytes_vec(s)
}

/// Equal byte prefixes leave the lexicographic comparison to the tails.
pub proof fn lemma_bytes_lt_common_prefix(a: Seq<u8>, b: Seq<u8>, i: int)
    requires
        0 <= i <= a.len(),
        i <= b.len(),
        a.take(i) =~= b.take(i),
    ensures
        bytes_lt(a, b) == bytes_lt(a.skip(i), b.skip(i)),
    decreases i,
{
    if i > 0 {
        assert(a[0] == a.take(i)[0]);
        assert(b[0] == b.take(i)[0]);
        assert(a.drop_first().take(i - 1) =~= b.drop_first().take(i - 1)) by {
            assert forall|k: int| 0 <= k < i - 1 implies #[trigger] a.drop_first().take(i - 1)[k]
                == b.drop_first().take(i - 1)[k] by {
                assert(a.take(i)[k + 1] == b.take(i)[k + 1]);
            }
        }
        lemma_bytes_lt_common_prefix(a.drop_first(), b.drop_first(), i - 1);
        assert(a.drop_first().skip(i - 1) =~= a.skip(i));
        assert(b.drop_first().skip(i - 1) =~= b.skip(i));
    } else {
        assert(a.skip(0) =~= a);
        assert(b.skip(0) =~= b);
    }
}

/// Strict byte-wise lexicographic comparison of two byte slices.
pub fn bytes_lt_exec(a: &[u8], b: &[u8]) -> (r: bool)
    ensures
        r == bytes_lt(a@, b@),
{
    let a_len: usize = a.len();
    let b_len: usize = b.len();
    let n: usize = if a_len < b_len {
        a_len
    } else {
        b_len
    };
    let mut i: usize = 0;
    while i < n
        invariant
            0 <= i <= n,
            n <= a@.len(),
            n <= b@.len(),
            a_len == a@.len(),
            b_len == b@.len(),
            n == if a_len < b_len {
                a_len
            } else {
                b_len
            },
            a@.take(i as int) =~= b@.take(i as int),
        decreases n - i,
    {
        let x = a[i];
        let y = b[i];
        if x < y {
            proof {
                lemma_bytes_lt_common_prefix(a@, b@, i as int);
            }
            return true;
        }
        if x > y {
            proof {
                lemma_bytes_lt_common_prefix(a@, b@, i as int);
            }
            return false;
        }
        proof {
            assert(a@.take(i + 1) =~= b@.take(i + 1));
        }
        i = i + 1;
    }
    proof {
        lemma_bytes_lt_common_prefix(a@, b@, n as int);
    }
    a_len < b_len
}

/// Byte-wise equality of two byte slices.
pub fn bytes_eq_exec(a: &[u8], b: &[u8]) -> (r: bool)
    ensures
        r == (a@ == b@),
{
    if a.len() != b.len() {
        proof {
            assert(a@ != b@);
        }
        return false;
    }
    let n: usize = a.len();
    let mut i: usize = 0;
    while i < n
        invariant
            0 <= i <= n,
            n == a@.len(),
            n == b@.len(),
            a@.take(i as int) =~= b@.take(i as int),
        decreases n - i,
    {
        if a[i] != b[i] {
            proof {
                assert(a@ != b@);
            }
            return false;
        }
        proof {
            assert(a@.take(i + 1) =~= b@.take(i + 1));
        }
        i = i + 1;
    }
    proof {
        assert forall|k: int| 0 <= k < n implies a@[k] == b@[k] by {
            assert(a@.take(n as int)[k] == b@.take(n as int)[k]);
        }
        assert(a@ =~= b@);
    }
    true
}

/// Equality of two strings, decided on their UTF-8 bytes.
pub fn str_eq(a: &str, b: &str) -> (r: bool)
    ensures
        r == (a@ == b@),
{
    let ab = str_to_bytes(a);
    let bb = str_to_bytes(b);
    let r = bytes_eq_exec(ab.as_slice(), bb.as_slice());
    proof {
        vstd::utf8::encode_utf8_decode_utf8(a@);
        vstd::utf8::encode_utf8_decode_utf8(b@);
    }
    r
}

/// Append the decimal digits of `n`, most significant first.
pub fn push_dec_u64(n: u64, out: &mut Vec<u8>)
    ensures
        final(out)@ == old(out)@ + dec_digits(n as nat),
    decreases n,
{
    if n < 10 {
        out.push((n as u8) + 0x30);
        proof {
            assert(final(out)@ =~= old(out)@ + dec_digits(n as nat));
        }
    } else {
        push_dec_u64(n / 10, out);
        out.push(((n % 10) as u8) + 0x30);
        proof {
            assert(final(out)@ =~= old(out)@ + dec_digits(n as nat));
        }
    }
}

/// Append the decimal form of `n`, with a leading `-` when negative.
pub fn push_dec_i64(n: i64, out: &mut Vec<u8>)
    ensures
        final(out)@ == old(out)@ + int_digits(n as int),
{
    if n >= 0 {
        push_dec_u64(n as u64, out);
    } else {
        out.push(0x2d);
        let m: u64 = ((-(n + 1)) as u64) + 1;
        proof {
            assert(m as nat == (-(n as int)) as nat);
        }
        push_dec_u64(m, out);
        proof {
            assert(final(out)@ =~= old(out)@ + int_digits(n as int));
        }
    }
}

} // verus!

verus! {

/// The characters that ASCII bytes spell.
pub open spec fn ascii_chars(b: Seq<u8>) -> Seq<char> {
    Seq::new(b.len(), |i: int| b[i] as char)
}

/// ASCII bytes are their own UTF-8 encoding.
pub proof fn lemma_ascii_chars_encode(b: Seq<u8>)
    requires
        forall|i: int| 0 <= i < b.len() ==> #[trigger] b[i] < 0x80,
    ensures
        encode_utf8(ascii_chars(b)) == b,
        valid_utf8(b),
{
    let cs = ascii_chars(b);
    assert(vstd::utf8::is_ascii_chars(cs)) by {
        assert forall|i: int| 0 <= i < cs.len() implies '\0' <= #[trigger] cs[i] <= '\u{7f}' by {
            assert(cs[i] == b[i] as char);
            assert(b[i] < 0x80);
        }
    }
    vstd::utf8::is_ascii_chars_encode_utf8(cs);
    assert(encode_utf8(cs) =~= b) by {
        assert forall|i: int| 0 <= i < b.len() implies encode_utf8(cs)[i] == b[i] by {
            assert(cs[i] as u8 == encode_utf8(cs)[i]);
            assert(cs[i] == b[i] as char);
        }
    }
    vstd::utf8::encode_utf8_valid_utf8(cs);
}

/// A string from ASCII bytes.
pub fn ascii_to_string(v: Vec<u8>) -> (r: String)
    requires
        forall|i: int| 0 <= i < v@.len() ==> #[trigger] v@[i] < 0x80,
    ensures
        r@ == ascii_chars(v@),
{
    proof {
        lemma_ascii_chars_encode(v@);
    }
    match bytes_to_utf8(v.as_slice()) {
        Some(s) => {
            proof {
                vstd::utf8::encode_utf8_decode_utf8(s@);
                vstd::utf8::encode_utf8_decode_utf8(ascii_chars(v@));
            }
            s
        },
        None => {
            proof {
                assert(false);
            }
            String::new()
        },
    }
}

/// A nibble as a lowercase hexadecimal ASCII byte.
pub open spec fn hex_digit_byte(v: int) -> u8 {
    if v < 10 {
        (0x30 + v) as u8
    } else {
        (0x57 + v) as u8
    }
}

/// A byte written in lowercase hexadecimal without padding: one digit
/// under sixteen, else two.
pub open spec fn hex_byte(x: u8) -> Seq<u8> {
    if x < 16 {
        seq![hex_digit_byte(x as int)]
    } else {
        seq![hex_digit_byte(x as int / 16), hex_digit_byte(x as int % 16)]
    }
}

/// A byte string written in hexadecimal, byte by byte.
pub open spec fn hex_bytes(b: Seq<u8>) -> Seq<u8>
    decreases b,
{
    if b.len() == 0 {
        Seq::empty()
    } else {
        hex_bytes(b.drop_last()) + hex_byte(b.last())
    }
}

/// The characters of a byte string's hexadecimal form.
pub open spec fn hex_chars(b: Seq<u8>) -> Seq<char> {
    ascii_chars(hex_bytes(b))
}

pub proof fn lemma_hex_bytes_take(b: Seq<u8>, i: int)
    requires
        0 <= i < b.len(),
    ensures
        hex_bytes(b.take(i + 1)) == hex_bytes(b.take(i)) + hex_byte(b[i]),
    decreases b,
{
    if i + 1 == b.len() {
        assert(b.take(i + 1) =~= b);
        assert(b.take(i) =~= b.drop_last());
    } else {
        lemma_hex_bytes_take(b.drop_last(), i);
        assert(b.drop_last().take(i + 1) =~= b.take(i + 1));
        assert(b.drop_last().take(i) =~= b.take(i));
    }
}

pub proof fn lemma_hex_bytes_ascii(b: Seq<u8>)
    ensures
        forall|i: int| 0 <= i < hex_bytes(b).len() ==> #[trigger] hex_bytes(b)[i] < 0x80,
    decreases b,
{
    if b.len() > 0 {
        lemma_hex_bytes_ascii(b.drop_last());
        assert forall|i: int| 0 <= i < hex_bytes(b).len() implies #[trigger] hex_bytes(b)[i]
            < 0x80 by {
            let pre = hex_bytes(b.drop_last());
            if i < pre.len() {
                assert(hex_bytes(b)[i] == pre[i]);
            } else {
                assert(hex_bytes(b)[i] == hex_byte(b.last())[i - pre.len()]);
            }
        }
    }
}

/// Append the hexadecimal form of `b`, byte by byte.
#[verifier::loop_isolation(false)]
pub fn push_hex(b: &[u8], out: &mut Vec<u8>)
    ensures
        final(out)@ == old(out)@ + hex_bytes(b@),
{
    let n: usize = b.len();
    let mut i: usize = 0;
    proof {
        assert(b@.take(0) =~= Seq::<u8>::empty());
        assert(hex_bytes(b@.take(0)) =~= Seq::<u8>::empty());
        assert(out@ =~= old(out)@ + hex_bytes(b@.take(0)));
    }
    while i < n
        invariant
            0 <= i <= n,
            n == b@.len(),
            out@ == old(out)@ + hex_bytes(b@.take(i as int)),
        decreases n - i,
    {
        let x = b[i];
        if x < 16 {
            let d: u8 = if x < 10 {
                0x30 + x
            } else {
                0x57 + x
            };
            out.push(d);
        } else {
            let hi = x / 16;
            let lo = x % 16;
            let hb: u8 = if hi < 10 {
                0x30 + hi
            } else {
                0x57 + hi
            };
            let lb: u8 = if lo < 10 {
                0x30 + lo
            } else {
                0x57 + lo
            };
            out.push(hb);
            out.push(lb);
        }
        proof {
            lemma_hex_bytes_take(b@, i as int);
            assert(out@ =~= old(out)@ + hex_bytes(b@.take(i + 1)));
        }
        i = i + 1;
    }
    proof {
        assert(b@.take(n as int) =~= b@);
    }
}

/// The hexadecimal form of some bytes, as `hex_chars` spells it.
pub fn hex_string(b: &[u8]) -> (r: String)
    ensures
        r@ == hex_chars(b@),
{
    let mut out: Vec<u8> = Vec::new();
    push_hex(b, &mut out);
    proof {
        assert(out@ =~= hex_bytes(b@));
        lemma_hex_bytes_ascii(b@);
    }
    ascii_to_string(out)
}

} // verus!

verus! {

/// A byte written as exactly two lowercase hexadecimal digits.
pub open spec fn hex2_byte(x: u8) -> Seq<u8> {
    seq![hex_digit_byte(x as int / 16), hex_digit_byte(x as int % 16)]
}

/// A byte string written as two digits per byte.
pub open spec fn hex2_bytes(b: Seq<u8>) -> Seq<u8>
    decreases b,
{
    if b.len() == 0 {
        Seq::empty()
    } else {
        hex2_bytes(b.drop_last()) + hex2_byte(b.last())
    }
}

/// The characters of the padded hexadecimal form.
pub open spec fn hex2_chars(b: Seq<u8>) -> Seq<char> {
    ascii_chars(hex2_bytes(b))
}

pub proof fn lemma_hex2_bytes_take(b: Seq<u8>, i: int)
    requires
        0 <= i < b.len(),
    ensures
        hex2_bytes(b.take(i + 1)) == hex2_bytes(b.take(i)) + hex2_byte(b[i]),
    decreases b,
{
    if i + 1 == b.len() {
        assert(b.take(i + 1) =~= b);
        assert(b.take(i) =~= b.drop_last());
    } else {
        lemma_hex2_bytes_take(b.drop_last(), i);
        assert(b.drop_last().take(i + 1) =~= b.take(i + 1));
        assert(b.drop_last().take(i) =~= b.take(i));
    }
}

pub proof fn lemma_hex2_bytes_ascii(b: Seq<u8>)
    ensures
        forall|i: int| 0 <= i < hex2_bytes(b).len() ==> #[trigger] hex2_bytes(b)[i] < 0x80,
    decreases b,
{
    if b.len() > 0 {
        lemma_hex2_bytes_ascii(b.drop_last());
        assert forall|i: int| 0 <= i < hex2_bytes(b).len() implies #[trigger] hex2_bytes(b)[i]
            < 0x80 by {
            let pre = hex2_bytes(b.drop_last());
            if i < pre.len() {
                assert(hex2_bytes(b)[i] == pre[i]);
            } else {
                assert(hex2_bytes(b)[i] == hex2_byte(b.last())[i - pre.len()]);
            }
        }
    }
}

/// The padded hexadecimal form of some bytes, as `hex2_chars` spells it.
#[verifier::loop_isolation(false)]
pub fn hex2_string(b: &[u8]) -> (r: String)
    ensures
        r@ == hex2_chars(b@),
{
    let n: usize = b.len();
    let mut out: Vec<u8> = Vec::new();
    let mut i: usize = 0;
    proof {
        assert(b@.take(0) =~= Seq::<u8>::empty());
        assert(hex2_bytes(b@.take(0)) =~= Seq::<u8>::empty());
        assert(out@ =~= hex2_bytes(b@.take(0)));
    }
    while i < n
        invariant
            0 <= i <= n,
            n == b@.len(),
            out@ == hex2_bytes(b@.take(i as int)),
        decreases n - i,
    {
        let x = b[i];
        let hi = x / 16;
        let lo = x % 16;
        let hb: u8 = if hi < 10 {
            0x30 + hi
        } else {
            0x57 + hi
        };
        let lb: u8 = if lo < 10 {
            0x30 + lo
        } else {
            0x57 + lo
        };
        out.push(hb);
        out.push(lb);
        proof {
            lemma_hex2_bytes_take(b@, i as int);
            assert(out@ =~= hex2_bytes(b@.take(i + 1)));
        }
        i = i + 1;
    }
    proof {
        assert(b@.take(n as int) =~= b@);
        lemma_hex2_bytes_ascii(b@);
    }
    ascii_to_string(out)
}

} // verus!
