use vstd::prelude::*;

verus! {

use crate::read::{is_digit, digits_end, digits_val};

/// An IP endpoint as a tracker reports it: a v4 or v6 address.
#[derive(Clone, Copy, Debug, PartialEq, Eq, Structural)]
pub enum PeerIp {
    V4(u8, u8, u8, u8),
    V6(u16, u16, u16, u16, u16, u16, u16, u16),
}

/// An address and port a peer listens on.
#[derive(Clone, Copy, Debug, PartialEq, Eq, Structural)]
pub struct PeerAddr {
    pub ip: PeerIp,
    pub port: u16,
}

/// The byte strings between separators, all of them: empty ones too.
pub open spec fn split_all(b: Seq<u8>, sep: u8, cur: Seq<u8>) -> Seq<Seq<u8>>
    decreases b.len(),
{
    if b.len() == 0 {
        seq![cur]
    } else if b[0] == sep {
        seq![cur] + split_all(b.drop_first(), sep, Seq::empty())
    } else {
        split_all(b.drop_first(), sep, cur.push(b[0]))
    }
}

/// A dotted-quad octet: one to three decimal digits, no leading zero,
/// value up to 255.
pub open spec fn spec_octet(g: Seq<u8>) -> Option<u8> {
    if g.len() < 1 || g.len() > 3 {
        None
    } else if !(forall|i: int| 0 <= i < g.len() ==> is_digit(#[trigger] g[i])) {
        None
    } else if g[0] == 0x30 && g.len() != 1 {
        None
    } else if digits_val(g, 0, g.len() as int) > 255 {
        None
    } else {
        Some(digits_val(g, 0, g.len() as int) as u8)
    }
}

/// A dotted-quad IPv4 address.
pub open spec fn spec_parse_ipv4(b: Seq<u8>) -> Option<(u8, u8, u8, u8)> {
    let gs = split_all(b, 0x2e, Seq::empty());
    if gs.len() != 4 {
        None
    } else {
        match (spec_octet(gs[0]), spec_octet(gs[1]), spec_octet(gs[2]), spec_octet(gs[3])) {
            (Some(a), Some(c), Some(d), Some(e)) => Some((a, c, d, e)),
            _ => None,
        }
    }
}

/// A hexadecimal digit.
pub open spec fn is_hex_digit(c: u8) -> bool {
    (0x30 <= c <= 0x39) || (0x61 <= c <= 0x66) || (0x41 <= c <= 0x46)
}

/// The value of a hexadecimal digit.
pub open spec fn hex_digit_val(c: u8) -> int {
    if 0x30 <= c <= 0x39 {
        c - 0x30
    } else if 0x61 <= c <= 0x66 {
        c - 0x61 + 10
    } else {
        c - 0x41 + 10
    }
}

/// The value of a hexadecimal digit run.
pub open spec fn hex_val(g: Seq<u8>) -> int
    decreases g.len(),
{
    if g.len() == 0 {
        0
    } else {
        hex_val(g.drop_last()) * 16 + hex_digit_val(g.last())
    }
}

/// A v6 group: one to four hexadecimal digits.
pub open spec fn is_hex_group(g: Seq<u8>) -> bool {
    1 <= g.len() <= 4 && (forall|i: int| 0 <= i < g.len() ==> is_hex_digit(#[trigger] g[i]))
}

/// All of the byte strings are v6 groups.
pub open spec fn all_hex_groups(gs: Seq<Seq<u8>>) -> bool {
    forall|i: int| 0 <= i < gs.len() ==> is_hex_group(#[trigger] gs[i])
}

/// The first position of a `::`, or `-1`.
pub open spec fn find_dcolon(b: Seq<u8>) -> int
    decreases b.len(),
{
    if b.len() < 2 {
        -1
    } else if b[0] == 0x3a && b[1] == 0x3a {
        0
    } else {
        let r = find_dcolon(b.drop_first());
        if r < 0 {
            -1
        } else {
            r + 1
        }
    }
}

/// The group values of a run of groups.
pub open spec fn group_vals(gs: Seq<Seq<u8>>) -> Seq<int> {
    gs.map_values(|g: Seq<u8>| hex_val(g))
}

/// The groups of a side of a `::`: none when the side is empty.
pub open spec fn side_groups(b: Seq<u8>) -> Seq<Seq<u8>> {
    if b.len() == 0 {
        Seq::empty()
    } else {
        split_all(b, 0x3a, Seq::empty())
    }
}

/// The two group values an embedded dotted quad stands for: its four
/// octets fill the last 32 bits of the address.
pub open spec fn quad_groups(q: (u8, u8, u8, u8)) -> Seq<int> {
    seq![q.0 as int * 256 + q.1 as int, q.2 as int * 256 + q.3 as int]
}

/// The group values of a trailing run of chunks, where the last chunk
/// may be an embedded dotted quad standing for the final two groups.
pub open spec fn tail_vals(gs: Seq<Seq<u8>>) -> Option<Seq<int>> {
    if all_hex_groups(gs) {
        Some(group_vals(gs))
    } else if gs.len() >= 1 && all_hex_groups(gs.drop_last()) {
        match spec_parse_ipv4(gs.last()) {
            Some(q) => Some(group_vals(gs.drop_last()) + quad_groups(q)),
            None => None,
        }
    } else {
        None
    }
}

/// A v6 address: eight colon-separated groups, or two runs of groups
/// around one `::` standing for at least one zero group; in either form
/// the address may end in an embedded dotted quad standing for the last
/// two groups.
pub open spec fn spec_parse_ipv6(b: Seq<u8>) -> Option<Seq<int>> {
    let d = find_dcolon(b);
    if d < 0 {
        match tail_vals(split_all(b, 0x3a, Seq::empty())) {
            Some(vs) => if vs.len() == 8 {
                Some(vs)
            } else {
                None
            },
            None => None,
        }
    } else {
        let left = b.subrange(0, d);
        let right = b.subrange(d + 2, b.len() as int);
        if find_dcolon(right) >= 0 {
            None
        } else {
            let lg = side_groups(left);
            match tail_vals(side_groups(right)) {
                Some(rvs) => {
                    if all_hex_groups(lg) && lg.len() + rvs.len() <= 7 {
                        Some(
                            group_vals(lg) + Seq::new(
                                (8 - lg.len() - rvs.len()) as nat,
                                |i: int| 0int,
                            ) + rvs,
                        )
                    } else {
                        None
                    }
                },
                None => None,
            }
        }
    }
}

/// The address an `ip` string of a tracker response names: a v4
/// dotted quad, or a v6 address.
pub open spec fn spec_parse_ip(b: Seq<u8>) -> Option<PeerIp> {
    match spec_parse_ipv4(b) {
        Some((a, c, d, e)) => Some(PeerIp::V4(a, c, d, e)),
        None => match spec_parse_ipv6(b) {
            Some(gs) => Some(
                PeerIp::V6(
                    gs[0] as u16,
                    gs[1] as u16,
                    gs[2] as u16,
                    gs[3] as u16,
                    gs[4] as u16,
                    gs[5] as u16,
                    gs[6] as u16,
                    gs[7] as u16,
                ),
            ),
            None => None,
        },
    }
}

} // verus!

verus! {

use crate::read::{find_digits_end, scan_u64_digits, copy_range, lemma_digits_end_facts};

/// The mathematical value of a list of byte chunks.
pub open spec fn view_chunks(cs: Seq<Vec<u8>>) -> Seq<Seq<u8>>
    decreases cs,
{
    if cs.len() == 0 {
        Seq::empty()
    } else {
        seq![cs[0]@] + view_chunks(cs.drop_first())
    }
}

pub broadcast proof fn lemma_view_chunks_index(cs: Seq<Vec<u8>>)
    ensures
        (#[trigger] view_chunks(cs)).len() == cs.len(),
        forall|i: int| 0 <= i < cs.len() ==> view_chunks(cs)[i] == cs[i]@,
    decreases cs,
{
    if cs.len() > 0 {
        lemma_view_chunks_index(cs.drop_first());
    }
}

/// Split `b` on `sep`, keeping empty segments.
#[verifier::loop_isolation(false)]
pub fn split_bytes(b: &[u8], sep: u8) -> (r: Vec<Vec<u8>>)
    ensures
        view_chunks(r@) == split_all(b@, sep, Seq::empty()),
{
    let n: usize = b.len();
    let mut out: Vec<Vec<u8>> = Vec::new();
    let mut start: usize = 0;
    let mut i: usize = 0;
    let ghost mut finished: Seq<Seq<u8>> = Seq::empty();
    proof {
        assert(b@.skip(0) =~= b@);
        assert(b@.subrange(0, 0) =~= Seq::<u8>::empty());
        assert(Seq::<Seq<u8>>::empty() + split_all(b@, sep, Seq::empty()) =~= split_all(
            b@,
            sep,
            Seq::empty(),
        ));
        assert(view_chunks(out@) =~= Seq::<Seq<u8>>::empty());
    }
    while i < n
        invariant
            0 <= start <= i <= n,
            n == b@.len(),
            split_all(b@, sep, Seq::empty()) == finished + split_all(
                b@.skip(i as int),
                sep,
                b@.subrange(start as int, i as int),
            ),
            view_chunks(out@) == finished,
        decreases n - i,
    {
        if b[i] == sep {
            let ghost cur = b@.subrange(start as int, i as int);
            let seg = copy_range(b, start, i - start);
            proof {
                assert(seg@ == cur);
                assert(b@.skip(i as int).drop_first() =~= b@.skip(i + 1));
                assert(finished + (seq![cur] + split_all(b@.skip(i + 1), sep, Seq::empty()))
                    =~= finished.push(cur) + split_all(b@.skip(i + 1), sep, Seq::empty()));
            }
            proof {
                lemma_view_chunks_index(out@);
            }
            out.push(seg);
            proof {
                lemma_view_chunks_index(out@);
                assert forall|t: int| 0 <= t < out@.len() implies view_chunks(out@)[t]
                    == finished.push(cur)[t] by {
                    if t < finished.len() {
                        assert(out@[t] == out@.drop_last()[t]);
                    }
                }
                assert(view_chunks(out@) =~= finished.push(cur));
                finished = finished.push(cur);
            }
            start = i + 1;
            i = i + 1;
            proof {
                assert(b@.subrange(start as int, i as int) =~= Seq::<u8>::empty());
            }
        } else {
            proof {
                assert(b@.skip(i as int).drop_first() =~= b@.skip(i + 1));
                assert(b@.subrange(start as int, i as int).push(b@[i as int]) =~= b@.subrange(
                    start as int,
                    i + 1,
                ));
            }
            i = i + 1;
        }
    }
    let ghost cur = b@.subrange(start as int, i as int);
    let seg = copy_range(b, start, i - start);
    proof {
        assert(seg@ == cur);
        assert(b@.skip(n as int) =~= Seq::<u8>::empty());
        assert(split_all(Seq::<u8>::empty(), sep, cur) == seq![cur]);
    }
    proof {
        lemma_view_chunks_index(out@);
    }
    out.push(seg);
    proof {
        lemma_view_chunks_index(out@);
        assert forall|t: int| 0 <= t < out@.len() implies view_chunks(out@)[t]
            == finished.push(cur)[t] by {
            if t < finished.len() {
                assert(out@[t] == out@.drop_last()[t]);
            }
        }
        assert(view_chunks(out@) =~= finished.push(cur));
        assert(finished + seq![cur] =~= finished.push(cur));
    }
    out
}

/// One dotted-quad octet, as [`spec_octet`] reads it.
pub fn parse_octet(g: &[u8]) -> (r: Option<u8>)
    ensures
        r == spec_octet(g@),
{
    let n: usize = g.len();
    if n < 1 || n > 3 {
        return None;
    }
    proof {
        lemma_digits_end_facts(g@, 0);
    }
    let de = find_digits_end(g, 0);
    if de != n {
        proof {
            assert(!is_digit(g@[de as int]));
        }
        return None;
    }
    if g[0] == 0x30 && n != 1 {
        return None;
    }
    let v = match scan_u64_digits(g, 0, n) {
        Some(v) => v,
        None => {
            return None;
        },
    };
    if v > 255 {
        return None;
    }
    Some(v as u8)
}

/// Bound on the value of a short hexadecimal run.
pub proof fn lemma_hex_val_bound(g: Seq<u8>)
    requires
        g.len() <= 4,
        forall|i: int| 0 <= i < g.len() ==> is_hex_digit(#[trigger] g[i]),
    ensures
        0 <= hex_val(g) < 0x10000,
    decreases g.len(),
{
    if g.len() > 0 {
        lemma_hex_val_bound(g.drop_last());
        assert(0 <= hex_digit_val(g.last()) < 16);
        assert(hex_val(g.drop_last()) <= 0xFFF) by {
            if g.len() == 4 {
                lemma_hex_val_small(g.drop_last());
            } else {
                lemma_hex_val_small(g.drop_last());
            }
        }
    }
}

/// Tighter bound: a run of at most three hexadecimal digits stays under
/// `0x1000`.
pub proof fn lemma_hex_val_small(g: Seq<u8>)
    requires
        g.len() <= 3,
        forall|i: int| 0 <= i < g.len() ==> is_hex_digit(#[trigger] g[i]),
    ensures
        0 <= hex_val(g) < 0x1000,
    decreases g.len(),
{
    if g.len() > 0 {
        lemma_hex_val_smaller(g.drop_last());
        assert(0 <= hex_digit_val(g.last()) < 16);
    }
}

/// And a run of at most two stays under `0x100`.
pub proof fn lemma_hex_val_smaller(g: Seq<u8>)
    requires
        g.len() <= 2,
        forall|i: int| 0 <= i < g.len() ==> is_hex_digit(#[trigger] g[i]),
    ensures
        0 <= hex_val(g) < 0x100,
    decreases g.len(),
{
    if g.len() > 0 {
        lemma_hex_val_tiny(g.drop_last());
        assert(0 <= hex_digit_val(g.last()) < 16);
    }
}

pub proof fn lemma_hex_val_tiny(g: Seq<u8>)
    requires
        g.len() <= 1,
        forall|i: int| 0 <= i < g.len() ==> is_hex_digit(#[trigger] g[i]),
    ensures
        0 <= hex_val(g) < 0x10,
{
    if g.len() == 1 {
        assert(g.drop_last() =~= Seq::<u8>::empty());
        assert(hex_val(g.drop_last()) == 0);
    }
}

/// One v6 group's value, when the bytes form a group.
#[verifier::loop_isolation(false)]
pub fn parse_hex_group(g: &[u8]) -> (r: Option<u16>)
    ensures
        r is Some <==> is_hex_group(g@),
        r matches Some(v) ==> v as int == hex_val(g@),
{
    let n: usize = g.len();
    if n < 1 || n > 4 {
        return None;
    }
    let mut acc: u32 = 0;
    let mut i: usize = 0;
    proof {
        assert(g@.take(0) =~= Seq::<u8>::empty());
    }
    while i < n
        invariant
            0 <= i <= n,
            n == g@.len(),
            n <= 4,
            forall|t: int| 0 <= t < i ==> is_hex_digit(#[trigger] g@[t]),
            acc as int == hex_val(g@.take(i as int)),
            acc < 0x10000,
        decreases n - i,
    {
        let c = g[i];
        let d: u32 = if c >= 0x30 && c <= 0x39 {
            (c - 0x30) as u32
        } else if c >= 0x61 && c <= 0x66 {
            (c - 0x61) as u32 + 10
        } else if c >= 0x41 && c <= 0x46 {
            (c - 0x41) as u32 + 10
        } else {
            return None;
        };
        proof {
            assert(is_hex_digit(g@[i as int]));
            assert(d as int == hex_digit_val(g@[i as int]));
            assert(g@.take(i + 1).drop_last() =~= g@.take(i as int));
            assert(g@.take(i + 1).last() == g@[i as int]);
            assert forall|t: int| 0 <= t <= i implies is_hex_digit(#[trigger] g@[t]) by {}
            lemma_hex_val_bound(g@.take(i + 1));
        }
        acc = acc * 16 + d;
        i = i + 1;
    }
    proof {
        assert(g@.take(n as int) =~= g@);
        lemma_hex_val_bound(g@);
    }
    Some(acc as u16)
}

/// First `::` of the bytes, if any.
#[verifier::loop_isolation(false)]
pub fn find_dcolon_exec(b: &[u8]) -> (r: Option<usize>)
    ensures
        r matches Some(d) ==> find_dcolon(b@) == d as int,
        r is None ==> find_dcolon(b@) < 0,
{
    let n: usize = b.len();
    let mut i: usize = 0;
    proof {
        assert(b@.skip(0) =~= b@);
    }
    while n >= 2 && i < n - 1
        invariant
            0 <= i,
            i <= n,
            n == b@.len(),
            find_dcolon(b@) >= 0 ==> (find_dcolon(b@.skip(i as int)) >= 0 && find_dcolon(b@) == i
                + find_dcolon(b@.skip(i as int))),
            find_dcolon(b@) < 0 ==> find_dcolon(b@.skip(i as int)) < 0,
            find_dcolon(b@.skip(i as int)) >= 0 ==> find_dcolon(b@) >= 0,
        decreases n - i,
    {
        if b[i] == 0x3a && b[i + 1] == 0x3a {
            proof {
                assert(b@.skip(i as int)[0] == b@[i as int]);
                assert(b@.skip(i as int)[1] == b@[i + 1]);
                assert(find_dcolon(b@.skip(i as int)) == 0);
            }
            return Some(i);
        }
        proof {
            assert(b@.skip(i as int)[0] == b@[i as int]);
            if b@.skip(i as int).len() >= 2 {
                assert(b@.skip(i as int)[1] == b@[i + 1]);
            }
            assert(b@.skip(i as int).drop_first() =~= b@.skip(i + 1));
        }
        i = i + 1;
    }
    proof {
        assert(b@.skip(i as int).len() < 2);
        assert(find_dcolon(b@.skip(i as int)) < 0);
    }
    None
}

} // verus!

verus! {

/// A `::` always has two bytes after its position.
pub proof fn lemma_find_dcolon_facts(b: Seq<u8>)
    ensures
        find_dcolon(b) >= 0 ==> find_dcolon(b) + 2 <= b.len(),
    decreases b.len(),
{
    if b.len() >= 2 && !(b[0] == 0x3a && b[1] == 0x3a) {
        lemma_find_dcolon_facts(b.drop_first());
    }
}

/// A dotted quad, as [`spec_parse_ipv4`] reads it.
pub fn parse_ipv4(b: &[u8]) -> (r: Option<(u8, u8, u8, u8)>)
    ensures
        r == spec_parse_ipv4(b@),
{
    let gs = split_bytes(b, 0x2e);
    proof {
        lemma_view_chunks_index(gs@);
    }
    if gs.len() != 4 {
        return None;
    }
    let a = match parse_octet(gs[0].as_slice()) {
        Some(x) => x,
        None => {
            return None;
        },
    };
    let c = match parse_octet(gs[1].as_slice()) {
        Some(x) => x,
        None => {
            return None;
        },
    };
    let d = match parse_octet(gs[2].as_slice()) {
        Some(x) => x,
        None => {
            return None;
        },
    };
    let e = match parse_octet(gs[3].as_slice()) {
        Some(x) => x,
        None => {
            return None;
        },
    };
    Some((a, c, d, e))
}

/// Group values of all chunks, or `None` where one is no group.
#[verifier::loop_isolation(false)]
fn parse_groups(gs: &Vec<Vec<u8>>) -> (r: Option<Vec<u16>>)
    ensures
        r is Some <==> all_hex_groups(view_chunks(gs@)),
        r matches Some(v) ==> v@.len() == gs@.len() && (forall|i: int|
            0 <= i < v@.len() ==> (#[trigger] v@[i]) as int == hex_val(view_chunks(gs@)[i])),
{
    proof {
        lemma_view_chunks_index(gs@);
    }
    let n: usize = gs.len();
    let mut vals: Vec<u16> = Vec::new();
    let mut i: usize = 0;
    while i < n
        invariant
            0 <= i <= n,
            n == gs@.len(),
            vals@.len() == i,
            forall|t: int| 0 <= t < i ==> is_hex_group(#[trigger] view_chunks(gs@)[t]),
            forall|t: int|
                0 <= t < i ==> (#[trigger] vals@[t]) as int == hex_val(view_chunks(gs@)[t]),
        decreases n - i,
    {
        let v = match parse_hex_group(gs[i].as_slice()) {
            Some(v) => v,
            None => {
                proof {
                    assert(!is_hex_group(view_chunks(gs@)[i as int]));
                }
                return None;
            },
        };
        vals.push(v);
        i = i + 1;
    }
    Some(vals)
}

/// Values of a trailing run of chunks, as [`tail_vals`] reads them.
#[verifier::loop_isolation(false)]
fn parse_tail(gs: &Vec<Vec<u8>>) -> (r: Option<Vec<u16>>)
    ensures
        r is Some <==> tail_vals(view_chunks(gs@)) is Some,
        r matches Some(v) ==> ({
            let vs = tail_vals(view_chunks(gs@))->0;
            v@.len() == vs.len() && (forall|i: int|
                0 <= i < v@.len() ==> (#[trigger] v@[i]) as int == vs[i])
        }),
{
    proof {
        lemma_view_chunks_index(gs@);
    }
    let ghost cs = view_chunks(gs@);
    match parse_groups(gs) {
        Some(v) => {
            proof {
                assert(tail_vals(cs) == Some(group_vals(cs)));
                assert(group_vals(cs).len() == cs.len());
            }
            return Some(v);
        },
        None => {},
    }
    let n: usize = gs.len();
    proof {
        assert(!all_hex_groups(cs));
        if n == 0 {
            assert(all_hex_groups(cs));
        }
    }
    let mut vals: Vec<u16> = Vec::new();
    let mut i: usize = 0;
    while i < n - 1
        invariant
            0 <= i <= n - 1,
            vals@.len() == i,
            forall|t: int| 0 <= t < i ==> is_hex_group(#[trigger] cs[t]),
            forall|t: int| 0 <= t < i ==> (#[trigger] vals@[t]) as int == hex_val(cs[t]),
        decreases n - 1 - i,
    {
        let v = match parse_hex_group(gs[i].as_slice()) {
            Some(v) => v,
            None => {
                proof {
                    assert(!is_hex_group(cs[i as int]));
                    assert(cs.drop_last()[i as int] == cs[i as int]);
                    assert(!all_hex_groups(cs.drop_last()));
                }
                return None;
            },
        };
        vals.push(v);
        i = i + 1;
    }
    proof {
        assert(all_hex_groups(cs.drop_last())) by {
            assert forall|t: int| 0 <= t < cs.drop_last().len() implies is_hex_group(
                #[trigger] cs.drop_last()[t],
            ) by {
                assert(cs.drop_last()[t] == cs[t]);
            }
        }
        assert(cs.last() == gs@[n - 1]@);
    }
    match parse_ipv4(gs[n - 1].as_slice()) {
        Some((a, c, d, e)) => {
            let hi: u16 = (a as u16) * 256 + (c as u16);
            let lo: u16 = (d as u16) * 256 + (e as u16);
            vals.push(hi);
            vals.push(lo);
            proof {
                let vs = group_vals(cs.drop_last()) + quad_groups((a, c, d, e));
                assert(tail_vals(cs) == Some(vs));
                assert(group_vals(cs.drop_last()).len() == n - 1);
                assert(vals@.len() == vs.len());
                assert forall|t: int| 0 <= t < vs.len() implies (#[trigger] vals@[t]) as int
                    == vs[t] by {
                    if t < n - 1 {
                        assert(vals@[t] == vals@.drop_last().drop_last()[t]);
                        assert(group_vals(cs.drop_last())[t] == hex_val(cs.drop_last()[t]));
                        assert(cs.drop_last()[t] == cs[t]);
                    } else if t == n - 1 {
                        assert(vals@[t] == hi);
                    } else {
                        assert(vals@[t] == lo);
                    }
                }
            }
            Some(vals)
        },
        None => {
            proof {
                assert(tail_vals(cs) is None);
            }
            None
        },
    }
}

/// A v6 address, as [`spec_parse_ipv6`] reads it.
#[verifier::loop_isolation(false)]
pub fn parse_ipv6(b: &[u8]) -> (r: Option<(u16, u16, u16, u16, u16, u16, u16, u16)>)
    ensures
        r is Some <==> spec_parse_ipv6(b@) is Some,
        r matches Some(t) ==> ({
            let gs = spec_parse_ipv6(b@)->0;
            &&& t.0 as int == gs[0]
            &&& t.1 as int == gs[1]
            &&& t.2 as int == gs[2]
            &&& t.3 as int == gs[3]
            &&& t.4 as int == gs[4]
            &&& t.5 as int == gs[5]
            &&& t.6 as int == gs[6]
            &&& t.7 as int == gs[7]
        }),
{
    let len: usize = b.len();
    match find_dcolon_exec(b) {
        None => {
            let gs = split_bytes(b, 0x3a);
            proof {
                lemma_view_chunks_index(gs@);
            }
            let vals = match parse_tail(&gs) {
                Some(v) => v,
                None => {
                    return None;
                },
            };
            if vals.len() != 8 {
                return None;
            }
            Some(
                (vals[0], vals[1], vals[2], vals[3], vals[4], vals[5], vals[6], vals[7]),
            )
        },
        Some(d) => {
            proof {
                lemma_find_dcolon_facts(b@);
            }
            let right = copy_range(b, d + 2, len - (d + 2));
            match find_dcolon_exec(right.as_slice()) {
                Some(_) => {
                    return None;
                },
                None => {},
            }
            let left = copy_range(b, 0, d);
            let lg: Vec<Vec<u8>> = if left.len() == 0 {
                let v: Vec<Vec<u8>> = Vec::new();
                proof {
                    assert(view_chunks(v@) =~= Seq::<Seq<u8>>::empty());
                    assert(view_chunks(v@) == side_groups(left@));
                }
                v
            } else {
                let v = split_bytes(left.as_slice(), 0x3a);
                proof {
                    assert(view_chunks(v@) == side_groups(left@));
                }
                v
            };
            let rg: Vec<Vec<u8>> = if right.len() == 0 {
                let v: Vec<Vec<u8>> = Vec::new();
                proof {
                    assert(view_chunks(v@) =~= Seq::<Seq<u8>>::empty());
                    assert(view_chunks(v@) == side_groups(right@));
                }
                v
            } else {
                let v = split_bytes(right.as_slice(), 0x3a);
                proof {
                    assert(view_chunks(v@) == side_groups(right@));
                }
                v
            };
            let nl: usize = lg.len();
            proof {
                lemma_view_chunks_index(lg@);
                lemma_view_chunks_index(rg@);
            }
            let rvals = match parse_tail(&rg) {
                Some(v) => v,
                None => {
                    return None;
                },
            };
            let lvals = match parse_groups(&lg) {
                Some(v) => v,
                None => {
                    return None;
                },
            };
            let nr: usize = rvals.len();
            if nl > 7 || nr > 7 - nl {
                return None;
            }
            let mut vals: Vec<u16> = Vec::new();
            let mut i: usize = 0;
            while i < nl
                invariant
                    0 <= i <= nl,
                    vals@.len() == i,
                    lvals@.len() == nl,
                    forall|t: int| 0 <= t < i ==> vals@[t] == lvals@[t],
                decreases nl - i,
            {
                vals.push(lvals[i]);
                i = i + 1;
            }
            let zeros: usize = 8 - nl - nr;
            let mut z: usize = 0;
            while z < zeros
                invariant
                    0 <= z <= zeros,
                    vals@.len() == nl + z,
                    lvals@.len() == nl,
                    forall|t: int| 0 <= t < nl ==> vals@[t] == lvals@[t],
                    forall|t: int| nl <= t < nl + z ==> (#[trigger] vals@[t]) == 0u16,
                decreases zeros - z,
            {
                vals.push(0u16);
                z = z + 1;
            }
            let mut j: usize = 0;
            while j < nr
                invariant
                    0 <= j <= nr,
                    vals@.len() == nl + zeros + j,
                    lvals@.len() == nl,
                    rvals@.len() == nr,
                    forall|t: int| 0 <= t < nl ==> vals@[t] == lvals@[t],
                    forall|t: int| nl <= t < nl + zeros ==> (#[trigger] vals@[t]) == 0u16,
                    forall|t: int|
                        nl + zeros <= t < nl + zeros + j ==> (#[trigger] vals@[t]) == rvals@[t - nl
                            - zeros],
                decreases nr - j,
            {
                vals.push(rvals[j]);
                j = j + 1;
            }
            proof {
                let rvs = tail_vals(side_groups(b@.subrange(d + 2, b@.len() as int)))->0;
                let spec_gs = group_vals(side_groups(b@.subrange(0, d as int))) + Seq::new(
                    (8 - nl - nr) as nat,
                    |i: int| 0int,
                ) + rvs;
                assert(left@ == b@.subrange(0, d as int));
                assert(right@ == b@.subrange(d + 2, b@.len() as int));
                assert(rvs.len() == nr);
                assert(spec_gs.len() == 8);
                assert forall|t: int| 0 <= t < 8 implies #[trigger] spec_gs[t] == vals@[t]
                    as int by {
                    if t < nl {
                        assert(vals@[t] == lvals@[t]);
                        assert(lvals@[t] as int == hex_val(view_chunks(lg@)[t]));
                    } else if t < nl + zeros {
                        assert(vals@[t] == 0u16);
                    } else {
                        assert(vals@[t] == rvals@[t - nl - zeros]);
                        assert(rvals@[t - nl - zeros] as int == rvs[t - nl - zeros]);
                    }
                }
            }
            Some(
                (vals[0], vals[1], vals[2], vals[3], vals[4], vals[5], vals[6], vals[7]),
            )
        },
    }
}

/// An `ip` string's address, as [`spec_parse_ip`] reads it.
pub fn parse_ip(b: &[u8]) -> (r: Option<PeerIp>)
    ensures
        r == spec_parse_ip(b@),
{
    match parse_ipv4(b) {
        Some((a, c, d, e)) => Some(PeerIp::V4(a, c, d, e)),
        None => {
            match parse_ipv6(b) {
                Some((g0, g1, g2, g3, g4, g5, g6, g7)) => {
                    proof {
                        let gs = spec_parse_ipv6(b@)->0;
                        assert(g0 == gs[0] as u16);
                        assert(g1 == gs[1] as u16);
                        assert(g2 == gs[2] as u16);
                        assert(g3 == gs[3] as u16);
                        assert(g4 == gs[4] as u16);
                        assert(g5 == gs[5] as u16);
                        assert(g6 == gs[6] as u16);
                        assert(g7 == gs[7] as u16);
                    }
                    Some(PeerIp::V6(g0, g1, g2, g3, g4, g5, g6, g7))
                },
                None => None,
            }
        },
    }
}

} // verus!
