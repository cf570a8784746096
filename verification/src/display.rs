use vstd::prelude::*;

verus! {

use vstd::utf8::{valid_utf8, valid_utf8_concat, encode_utf8};
use crate::bencode::dec_digits;
use crate::strings::{hex_digit_byte, lemma_ascii_chars_encode, push_dec_u64};
use crate::ip::{PeerIp, PeerAddr};

/// The hexadecimal digits of a value, lowercase, no leading zeros, a
/// single `0` for zero.
pub open spec fn hex_digits(n: nat) -> Seq<u8>
    decreases n,
{
    if n < 16 {
        seq![hex_digit_byte(n as int)]
    } else {
        hex_digits(n / 16) + seq![hex_digit_byte((n % 16) as int)]
    }
}

/// Append the hexadecimal digits of `n`, most significant first.
pub fn push_hex_u16(n: u16, out: &mut Vec<u8>)
    ensures
        final(out)@ == old(out)@ + hex_digits(n as nat),
    decreases n,
{
    if n < 16 {
        let d: u8 = if n < 10 {
            0x30 + (n as u8)
        } else {
            0x57 + (n as u8)
        };
        out.push(d);
        proof {
            assert(final(out)@ =~= old(out)@ + hex_digits(n as nat));
        }
    } else {
        push_hex_u16(n / 16, out);
        let r = (n % 16) as u8;
        let d: u8 = if r < 10 {
            0x30 + r
        } else {
            0x57 + r
        };
        out.push(d);
        proof {
            assert(final(out)@ =~= old(out)@ + hex_digits(n as nat));
        }
    }
}

/// The dotted-quad text of a v4 address.
pub open spec fn v4_bytes(a: u8, b: u8, c: u8, d: u8) -> Seq<u8> {
    dec_digits(a as nat) + seq![0x2eu8] + dec_digits(b as nat) + seq![0x2eu8] + dec_digits(
        c as nat,
    ) + seq![0x2eu8] + dec_digits(d as nat)
}

/// Append the dotted-quad text of a v4 address.
pub fn push_v4(a: u8, b: u8, c: u8, d: u8, out: &mut Vec<u8>)
    ensures
        final(out)@ == old(out)@ + v4_bytes(a, b, c, d),
{
    push_dec_u64(a as u64, out);
    out.push(0x2e);
    push_dec_u64(b as u64, out);
    out.push(0x2e);
    push_dec_u64(c as u64, out);
    out.push(0x2e);
    push_dec_u64(d as u64, out);
    proof {
        assert(final(out)@ =~= old(out)@ + v4_bytes(a, b, c, d));
    }
}

/// The length of the run of zero groups starting at `i`.
pub open spec fn zrun(gs: Seq<u16>, i: int) -> int
    decreases gs.len() - i when 0 <= i <= gs.len()
{
    if i < 0 || i >= gs.len() || gs[i] != 0 {
        0
    } else {
        1 + zrun(gs, i + 1)
    }
}

/// The leftmost longest run of zero groups in `gs[i..]`: its start and
/// its length.
pub open spec fn best_run(gs: Seq<u16>, i: int) -> (int, int)
    decreases gs.len() - i when 0 <= i <= gs.len()
{
    if i >= gs.len() {
        (i, 0)
    } else {
        let cur = zrun(gs, i);
        let b = best_run(gs, i + 1);
        if cur >= b.1 {
            (i, cur)
        } else {
            b
        }
    }
}

/// The leftmost longest zero run of the eight groups, computed.
#[verifier::loop_isolation(false)]
fn best_zero_run(g: &Vec<u16>) -> (r: (usize, usize))
    requires
        g@.len() == 8,
    ensures
        r.0 as int == best_run(g@, 0).0,
        r.1 as int == best_run(g@, 0).1,
        r.0 + r.1 <= 8,
{
    let mut i: usize = 8;
    let mut zr: usize = 0;
    let mut bs: usize = 8;
    let mut bl: usize = 0;
    while i > 0
        invariant
            0 <= i <= 8,
            zr as int == zrun(g@, i as int),
            i + zr <= 8,
            bs as int == best_run(g@, i as int).0,
            bl as int == best_run(g@, i as int).1,
            bs + bl <= 8,
        decreases i,
    {
        i = i - 1;
        if g[i] != 0 {
            zr = 0;
        } else {
            zr = zr + 1;
        }
        if zr >= bl {
            bs = i;
            bl = zr;
        }
    }
    (bs, bl)
}

/// Group texts joined by `:`.
pub open spec fn groups_join(gs: Seq<u16>) -> Seq<u8>
    decreases gs,
{
    if gs.len() == 0 {
        Seq::empty()
    } else if gs.len() == 1 {
        hex_digits(gs[0] as nat)
    } else {
        groups_join(gs.drop_last()) + seq![0x3au8] + hex_digits(gs.last() as nat)
    }
}

pub proof fn lemma_groups_join_take(gs: Seq<u16>, i: int)
    requires
        0 <= i < gs.len(),
    ensures
        groups_join(gs.take(i + 1)) == groups_join(gs.take(i)) + (if i == 0 {
            Seq::empty()
        } else {
            seq![0x3au8]
        }) + hex_digits(gs[i] as nat),
    decreases gs,
{
    if i + 1 == gs.len() {
        assert(gs.take(i + 1) =~= gs);
        assert(gs.take(i) =~= gs.drop_last());
        if i == 0 {
            assert(groups_join(gs.take(0)) =~= Seq::<u8>::empty());
            assert(groups_join(gs) =~= (groups_join(gs.take(0)) + Seq::<u8>::empty())
                + hex_digits(gs[0] as nat));
        } else {
            assert(groups_join(gs) =~= (groups_join(gs.take(i)) + seq![0x3au8]) + hex_digits(
                gs[i] as nat,
            ));
        }
    } else {
        lemma_groups_join_take(gs.drop_last(), i);
        assert(gs.drop_last().take(i + 1) =~= gs.take(i + 1));
        assert(gs.drop_last().take(i) =~= gs.take(i));
    }
}

/// Append the group texts of `g[lo..hi]`, joined by `:`.
#[verifier::loop_isolation(false)]
fn push_groups(g: &Vec<u16>, lo: usize, hi: usize, out: &mut Vec<u8>)
    requires
        lo <= hi <= g@.len(),
    ensures
        final(out)@ == old(out)@ + groups_join(g@.subrange(lo as int, hi as int)),
{
    let ghost sub = g@.subrange(lo as int, hi as int);
    let mut j: usize = lo;
    proof {
        assert(sub.take(0) =~= Seq::<u16>::empty());
        assert(out@ =~= old(out)@ + groups_join(sub.take(0)));
    }
    while j < hi
        invariant
            lo <= j <= hi,
            out@ == old(out)@ + groups_join(sub.take(j - lo)),
        decreases hi - j,
    {
        if j > lo {
            out.push(0x3a);
        }
        push_hex_u16(g[j], out);
        proof {
            lemma_groups_join_take(sub, j - lo);
            assert(sub[j - lo] == g@[j as int]);
            assert(out@ =~= old(out)@ + groups_join(sub.take(j - lo + 1)));
        }
        j = j + 1;
    }
    proof {
        assert(sub.take(hi - lo) =~= sub);
    }
}

/// The text std's v6 display writes: the IPv4-mapped form when the
/// first five groups are zero and the sixth is `ffff`, else the hex
/// groups with the leftmost longest zero run of length at least two
/// compressed to `::`.
pub open spec fn v6_bytes(gs: Seq<u16>) -> Seq<u8> {
    if gs[0] == 0 && gs[1] == 0 && gs[2] == 0 && gs[3] == 0 && gs[4] == 0 && gs[5] == 0xffff {
        seq![0x3au8, 0x3au8, 0x66u8, 0x66u8, 0x66u8, 0x66u8, 0x3au8] + v4_bytes(
            (gs[6] / 256) as u8,
            (gs[6] % 256) as u8,
            (gs[7] / 256) as u8,
            (gs[7] % 256) as u8,
        )
    } else {
        let b = best_run(gs, 0);
        if b.1 >= 2 {
            groups_join(gs.take(b.0)) + seq![0x3au8, 0x3au8] + groups_join(gs.skip(b.0 + b.1))
        } else {
            groups_join(gs)
        }
    }
}

/// Append the text of a v6 address.
fn push_v6(g: &Vec<u16>, out: &mut Vec<u8>)
    requires
        g@.len() == 8,
    ensures
        final(out)@ == old(out)@ + v6_bytes(g@),
{
    if g[0] == 0 && g[1] == 0 && g[2] == 0 && g[3] == 0 && g[4] == 0 && g[5] == 0xffff {
        out.push(0x3a);
        out.push(0x3a);
        out.push(0x66);
        out.push(0x66);
        out.push(0x66);
        out.push(0x66);
        out.push(0x3a);
        let g6 = g[6];
        let g7 = g[7];
        push_v4((g6 / 256) as u8, (g6 % 256) as u8, (g7 / 256) as u8, (g7 % 256) as u8, out);
        proof {
            assert(final(out)@ =~= old(out)@ + v6_bytes(g@));
        }
    } else {
        let (bs, bl) = best_zero_run(g);
        if bl >= 2 {
            push_groups(g, 0, bs, out);
            out.push(0x3a);
            out.push(0x3a);
            push_groups(g, bs + bl, 8, out);
            proof {
                assert(g@.subrange(0, bs as int) =~= g@.take(bs as int));
                assert(g@.subrange(bs + bl, 8) =~= g@.skip(bs + bl));
                assert(final(out)@ =~= old(out)@ + v6_bytes(g@));
            }
        } else {
            push_groups(g, 0, 8, out);
            proof {
                assert(g@.subrange(0, 8) =~= g@);
                assert(final(out)@ =~= old(out)@ + v6_bytes(g@));
            }
        }
    }
}

/// The text std's socket-address display writes: `a.b.c.d:port`, or
/// `[v6]:port`.
pub open spec fn addr_bytes(a: PeerAddr) -> Seq<u8> {
    match a.ip {
        PeerIp::V4(x, y, z, w) => v4_bytes(x, y, z, w) + seq![0x3au8] + dec_digits(a.port as nat),
        PeerIp::V6(g0, g1, g2, g3, g4, g5, g6, g7) => seq![0x5bu8] + v6_bytes(
            seq![g0, g1, g2, g3, g4, g5, g6, g7],
        ) + seq![0x5du8, 0x3au8] + dec_digits(a.port as nat),
    }
}

/// Append the text of a peer's address.
pub fn push_addr(a: PeerAddr, out: &mut Vec<u8>)
    ensures
        final(out)@ == old(out)@ + addr_bytes(a),
{
    match a.ip {
        PeerIp::V4(x, y, z, w) => {
            push_v4(x, y, z, w, out);
            out.push(0x3a);
            push_dec_u64(a.port as u64, out);
            proof {
                assert(final(out)@ =~= old(out)@ + addr_bytes(a));
            }
        },
        PeerIp::V6(g0, g1, g2, g3, g4, g5, g6, g7) => {
            let mut gv: Vec<u16> = Vec::new();
            gv.push(g0);
            gv.push(g1);
            gv.push(g2);
            gv.push(g3);
            gv.push(g4);
            gv.push(g5);
            gv.push(g6);
            gv.push(g7);
            proof {
                assert(gv@ =~= seq![g0, g1, g2, g3, g4, g5, g6, g7]);
            }
            out.push(0x5b);
            push_v6(&gv, out);
            out.push(0x5d);
            out.push(0x3a);
            push_dec_u64(a.port as u64, out);
            proof {
                assert(final(out)@ =~= old(out)@ + addr_bytes(a));
            }
        },
    }
}

/// Hexadecimal digit bytes are ASCII.
pub proof fn lemma_hex_digits_ascii(n: nat)
    ensures
        forall|i: int| 0 <= i < hex_digits(n).len() ==> #[trigger] hex_digits(n)[i] < 0x80,
    decreases n,
{
    if n >= 16 {
        lemma_hex_digits_ascii(n / 16);
        assert forall|i: int| 0 <= i < hex_digits(n).len() implies #[trigger] hex_digits(n)[i]
            < 0x80 by {
            let pre = hex_digits(n / 16);
            if i < pre.len() {
                assert(hex_digits(n)[i] == pre[i]);
            } else {
                assert(hex_digits(n)[i] == hex_digit_byte((n % 16) as int));
            }
        }
    }
}

/// Joined group texts are ASCII.
pub proof fn lemma_groups_join_ascii(gs: Seq<u16>)
    ensures
        forall|i: int| 0 <= i < groups_join(gs).len() ==> #[trigger] groups_join(gs)[i] < 0x80,
    decreases gs,
{
    if gs.len() == 1 {
        lemma_hex_digits_ascii(gs[0] as nat);
    } else if gs.len() > 1 {
        lemma_groups_join_ascii(gs.drop_last());
        lemma_hex_digits_ascii(gs.last() as nat);
        assert forall|i: int| 0 <= i < groups_join(gs).len() implies #[trigger] groups_join(
            gs,
        )[i] < 0x80 by {
            let pre = groups_join(gs.drop_last()) + seq![0x3au8];
            if i < pre.len() {
                if i < groups_join(gs.drop_last()).len() {
                    assert(groups_join(gs)[i] == groups_join(gs.drop_last())[i]);
                } else {
                    assert(groups_join(gs)[i] == 0x3au8);
                }
            } else {
                assert(groups_join(gs)[i] == hex_digits(gs.last() as nat)[i - pre.len()]);
            }
        }
    }
}

/// Concatenations of ASCII byte strings are ASCII.
proof fn lemma_ascii_concat(a: Seq<u8>, b: Seq<u8>)
    requires
        forall|i: int| 0 <= i < a.len() ==> #[trigger] a[i] < 0x80,
        forall|i: int| 0 <= i < b.len() ==> #[trigger] b[i] < 0x80,
    ensures
        forall|i: int| 0 <= i < (a + b).len() ==> #[trigger] (a + b)[i] < 0x80,
{
    assert forall|i: int| 0 <= i < (a + b).len() implies #[trigger] (a + b)[i] < 0x80 by {
        if i < a.len() {
            assert((a + b)[i] == a[i]);
        } else {
            assert((a + b)[i] == b[i - a.len()]);
        }
    }
}

/// Dotted-quad texts are ASCII.
pub proof fn lemma_v4_ascii(a: u8, b: u8, c: u8, d: u8)
    ensures
        forall|i: int| 0 <= i < v4_bytes(a, b, c, d).len() ==> #[trigger] v4_bytes(a, b, c, d)[i]
            < 0x80,
{
    crate::bencode::lemma_dec_digits_ascii(a as nat);
    crate::bencode::lemma_dec_digits_ascii(b as nat);
    crate::bencode::lemma_dec_digits_ascii(c as nat);
    crate::bencode::lemma_dec_digits_ascii(d as nat);
    lemma_ascii_concat(dec_digits(a as nat), seq![0x2eu8]);
    lemma_ascii_concat(dec_digits(a as nat) + seq![0x2eu8], dec_digits(b as nat));
    lemma_ascii_concat(
        dec_digits(a as nat) + seq![0x2eu8] + dec_digits(b as nat),
        seq![0x2eu8],
    );
    lemma_ascii_concat(
        dec_digits(a as nat) + seq![0x2eu8] + dec_digits(b as nat) + seq![0x2eu8],
        dec_digits(c as nat),
    );
    lemma_ascii_concat(
        dec_digits(a as nat) + seq![0x2eu8] + dec_digits(b as nat) + seq![0x2eu8] + dec_digits(
            c as nat,
        ),
        seq![0x2eu8],
    );
    lemma_ascii_concat(
        dec_digits(a as nat) + seq![0x2eu8] + dec_digits(b as nat) + seq![0x2eu8] + dec_digits(
            c as nat,
        ) + seq![0x2eu8],
        dec_digits(d as nat),
    );
}

/// Address texts are ASCII.
pub proof fn lemma_addr_ascii(a: PeerAddr)
    ensures
        forall|i: int| 0 <= i < addr_bytes(a).len() ==> #[trigger] addr_bytes(a)[i] < 0x80,
{
    crate::bencode::lemma_dec_digits_ascii(a.port as nat);
    match a.ip {
        PeerIp::V4(x, y, z, w) => {
            lemma_v4_ascii(x, y, z, w);
            lemma_ascii_concat(v4_bytes(x, y, z, w), seq![0x3au8]);
            lemma_ascii_concat(v4_bytes(x, y, z, w) + seq![0x3au8], dec_digits(a.port as nat));
        },
        PeerIp::V6(g0, g1, g2, g3, g4, g5, g6, g7) => {
            let gs = seq![g0, g1, g2, g3, g4, g5, g6, g7];
            lemma_v6_ascii(gs);
            lemma_ascii_concat(seq![0x5bu8], v6_bytes(gs));
            lemma_ascii_concat(seq![0x5bu8] + v6_bytes(gs), seq![0x5du8, 0x3au8]);
            lemma_ascii_concat(
                seq![0x5bu8] + v6_bytes(gs) + seq![0x5du8, 0x3au8],
                dec_digits(a.port as nat),
            );
        },
    }
}

/// V6 texts are ASCII.
pub proof fn lemma_v6_ascii(gs: Seq<u16>)
    ensures
        forall|i: int| 0 <= i < v6_bytes(gs).len() ==> #[trigger] v6_bytes(gs)[i] < 0x80,
{
    if gs[0] == 0 && gs[1] == 0 && gs[2] == 0 && gs[3] == 0 && gs[4] == 0 && gs[5] == 0xffff {
        lemma_v4_ascii(
            (gs[6] / 256) as u8,
            (gs[6] % 256) as u8,
            (gs[7] / 256) as u8,
            (gs[7] % 256) as u8,
        );
        lemma_ascii_concat(
            seq![0x3au8, 0x3au8, 0x66u8, 0x66u8, 0x66u8, 0x66u8, 0x3au8],
            v4_bytes(
                (gs[6] / 256) as u8,
                (gs[6] % 256) as u8,
                (gs[7] / 256) as u8,
                (gs[7] % 256) as u8,
            ),
        );
    } else {
        let b = best_run(gs, 0);
        if b.1 >= 2 {
            lemma_groups_join_ascii(gs.take(b.0));
            lemma_groups_join_ascii(gs.skip(b.0 + b.1));
            lemma_ascii_concat(groups_join(gs.take(b.0)), seq![0x3au8, 0x3au8]);
            lemma_ascii_concat(
                groups_join(gs.take(b.0)) + seq![0x3au8, 0x3au8],
                groups_join(gs.skip(b.0 + b.1)),
            );
        } else {
            lemma_groups_join_ascii(gs);
        }
    }
}

} // verus!

verus! {

use crate::bencode::{BencodeElem, BencodeValue, view_dict, view_elem, int_digits, bytes_lt,
    display_bytes, lemma_display_valid, lemma_view_dict_index, lemma_int_digits_ascii,
    lemma_dec_digits_ascii, push_bytes};
use crate::strings::{str_to_bytes, bytes_to_utf8, bytes_lt_exec, hex_bytes, push_hex,
    lemma_hex_bytes_ascii};
use crate::torrent::{Dictionary, view_opt_dict};
use crate::tracker::{Peer, PeerView, TrackerResponse, TrackerResponseView, SwarmMetadata,
    SwarmMetadataView, TrackerScrapeResponse, TrackerScrapeResponseView, view_peers,
    view_swarm_files};

/// Insert an entry before the first whose encoded key is strictly
/// larger; equal keys stay in arrival order.
pub open spec fn display_insert(
    es: Seq<(Seq<char>, BencodeValue)>,
    e: (Seq<char>, BencodeValue),
) -> Seq<(Seq<char>, BencodeValue)>
    decreases es,
{
    if es.len() == 0 {
        seq![e]
    } else if bytes_lt(encode_utf8(e.0), encode_utf8(es[0].0)) {
        seq![e] + es
    } else {
        seq![es[0]] + display_insert(es.drop_first(), e)
    }
}

/// The entries ordered by their keys' bytes, as the display prints
/// them.
pub open spec fn display_sorted(es: Seq<(Seq<char>, BencodeValue)>) -> Seq<
    (Seq<char>, BencodeValue),
>
    decreases es,
{
    if es.len() == 0 {
        Seq::empty()
    } else {
        display_insert(display_sorted(es.drop_last()), es.last())
    }
}

/// `display_insert` lands at the first position whose key is strictly
/// larger.
proof fn lemma_display_insert_at(
    es: Seq<(Seq<char>, BencodeValue)>,
    e: (Seq<char>, BencodeValue),
    pos: int,
)
    requires
        0 <= pos <= es.len(),
        forall|t: int|
            0 <= t < pos ==> !bytes_lt(encode_utf8(e.0), encode_utf8((#[trigger] es[t]).0)),
        pos < es.len() ==> bytes_lt(encode_utf8(e.0), encode_utf8(es[pos].0)),
    ensures
        display_insert(es, e) == es.take(pos) + seq![e] + es.skip(pos),
    decreases es,
{
    if es.len() == 0 {
        assert(display_insert(es, e) =~= es.take(0) + seq![e] + es.skip(0));
    } else if pos == 0 {
        assert(display_insert(es, e) == seq![e] + es);
        assert(seq![e] + es =~= es.take(0) + seq![e] + es.skip(0));
    } else {
        let t = es.drop_first();
        assert forall|s: int| 0 <= s < pos - 1 implies !bytes_lt(
            encode_utf8(e.0),
            encode_utf8((#[trigger] t[s]).0),
        ) by {
            assert(t[s] == es[s + 1]);
        }
        assert(pos - 1 < t.len() ==> t[pos - 1] == es[pos]);
        lemma_display_insert_at(t, e, pos - 1);
        assert(display_insert(es, e) == seq![es[0]] + display_insert(t, e));
        assert(seq![es[0]] + (t.take(pos - 1) + seq![e] + t.skip(pos - 1)) =~= es.take(pos)
            + seq![e] + es.skip(pos));
    }
}

/// Insert one entry into a vector kept sorted by encoded key.
fn insert_display_sorted(es: &mut Vec<(String, BencodeElem)>, e: (String, BencodeElem))
    ensures
        view_dict(final(es)@) == display_insert(view_dict(old(es)@), (e.0@, view_elem(e.1))),
{
    let ghost gs = view_dict(old(es)@);
    let ghost ev = (e.0@, view_elem(e.1));
    proof {
        lemma_view_dict_index(old(es)@);
    }
    let ke = str_to_bytes(e.0.as_str());
    let len: usize = es.len();
    let mut pos: usize = 0;
    loop
        invariant
            0 <= pos <= len,
            es@ == old(es)@,
            len == old(es)@.len(),
            gs == view_dict(old(es)@),
            gs.len() == len,
            ke@ == encode_utf8(ev.0),
            forall|t: int|
                0 <= t < len ==> #[trigger] gs[t] == (old(es)@[t].0@, view_elem(old(es)@[t].1)),
            forall|t: int|
                0 <= t < pos ==> !bytes_lt(encode_utf8(ev.0), encode_utf8((#[trigger] gs[t]).0)),
        ensures
            0 <= pos <= len,
            es@ == old(es)@,
            forall|t: int|
                0 <= t < pos ==> !bytes_lt(encode_utf8(ev.0), encode_utf8((#[trigger] gs[t]).0)),
            pos < len ==> bytes_lt(encode_utf8(ev.0), encode_utf8(gs[pos as int].0)),
        decreases len - pos,
    {
        if pos >= len {
            break;
        }
        let entry = &es[pos];
        let kc = str_to_bytes(entry.0.as_str());
        proof {
            assert(gs[pos as int].0 == old(es)@[pos as int].0@);
        }
        if bytes_lt_exec(ke.as_slice(), kc.as_slice()) {
            break;
        }
        pos = pos + 1;
    }
    proof {
        lemma_display_insert_at(gs, ev, pos as int);
    }
    es.insert(pos, e);
    proof {
        lemma_view_dict_index(es@);
        assert forall|t: int| 0 <= t < es@.len() implies view_dict(es@)[t] == (gs.take(
            pos as int,
        ) + seq![ev] + gs.skip(pos as int))[t] by {
            if t < pos {
                assert(es@[t] == old(es)@[t]);
            } else if t > pos {
                assert(es@[t] == old(es)@[t - 1]);
            } else {
                assert(es@[t] == e);
            }
        }
        assert(view_dict(es@) =~= gs.take(pos as int) + seq![ev] + gs.skip(pos as int));
    }
}

/// A copy of the entries, sorted by their encoded keys.
#[verifier::loop_isolation(false)]
fn sort_entries(es: &Vec<(String, BencodeElem)>) -> (r: Vec<(String, BencodeElem)>)
    ensures
        view_dict(r@) == display_sorted(view_dict(es@)),
{
    proof {
        lemma_view_dict_index(es@);
    }
    let ghost src = view_dict(es@);
    let mut out_v: Vec<(String, BencodeElem)> = Vec::new();
    let n: usize = es.len();
    let mut i: usize = 0;
    proof {
        assert(src.take(0) =~= Seq::<(Seq<char>, BencodeValue)>::empty());
        assert(view_dict(out_v@) =~= Seq::<(Seq<char>, BencodeValue)>::empty());
    }
    while i < n
        invariant
            0 <= i <= n,
            n == es@.len(),
            src.len() == n,
            forall|t: int| 0 <= t < n ==> #[trigger] src[t] == (es@[t].0@, view_elem(es@[t].1)),
            view_dict(out_v@) == display_sorted(src.take(i as int)),
        decreases n - i,
    {
        let entry = &es[i];
        let key = entry.0.clone();
        let val = entry.1.deep_clone();
        proof {
            assert(src.take(i + 1).drop_last() =~= src.take(i as int));
            assert(src.take(i + 1).last() == src[i as int]);
            assert((key@, view_elem(val)) == src[i as int]);
        }
        insert_display_sorted(&mut out_v, (key, val));
        i = i + 1;
    }
    proof {
        assert(src.take(n as int) =~= src);
    }
    out_v
}

/// One extras line: `-key: value` and a newline.
pub open spec fn extras_line(e: (Seq<char>, BencodeValue)) -> Seq<u8> {
    seq![0x2du8] + encode_utf8(e.0) + seq![0x3au8, 0x20u8] + display_bytes(e.1) + seq![0x0au8]
}

/// The extras lines, in order.
pub open spec fn extras_lines(es: Seq<(Seq<char>, BencodeValue)>) -> Seq<u8>
    decreases es,
{
    if es.len() == 0 {
        Seq::empty()
    } else {
        extras_lines(es.drop_last()) + extras_line(es.last())
    }
}

pub proof fn lemma_extras_lines_take(es: Seq<(Seq<char>, BencodeValue)>, i: int)
    requires
        0 <= i < es.len(),
    ensures
        extras_lines(es.take(i + 1)) == extras_lines(es.take(i)) + extras_line(es[i]),
    decreases es,
{
    if i + 1 == es.len() {
        assert(es.take(i + 1) =~= es);
        assert(es.take(i) =~= es.drop_last());
    } else {
        lemma_extras_lines_take(es.drop_last(), i);
        assert(es.drop_last().take(i + 1) =~= es.take(i + 1));
        assert(es.drop_last().take(i) =~= es.take(i));
    }
}

/// The extras block a display prints: nothing when absent, else one
/// line per entry, sorted by key.
pub open spec fn extras_block(d: Option<Seq<(Seq<char>, BencodeValue)>>) -> Seq<u8> {
    match d {
        None => Seq::empty(),
        Some(es) => extras_lines(display_sorted(es)),
    }
}

/// Append the extras block of an optional dictionary.
#[verifier::loop_isolation(false)]
fn push_extras(d: &Option<Dictionary>, out: &mut Vec<u8>)
    ensures
        final(out)@ == old(out)@ + extras_block(view_opt_dict(*d)),
{
    match d {
        None => {
            proof {
                assert(final(out)@ =~= old(out)@ + extras_block(view_opt_dict(*d)));
            }
        },
        Some(es) => {
            let sorted = sort_entries(es);
            let ghost sv = display_sorted(view_dict(es@));
            proof {
                lemma_view_dict_index(sorted@);
            }
            let n: usize = sorted.len();
            let mut k: usize = 0;
            proof {
                assert(sv.take(0) =~= Seq::<(Seq<char>, BencodeValue)>::empty());
                assert(out@ =~= old(out)@ + extras_lines(sv.take(0)));
            }
            while k < n
                invariant
                    0 <= k <= n,
                    n == sorted@.len(),
                    sv == view_dict(sorted@),
                    sv.len() == n,
                    forall|t: int|
                        0 <= t < n ==> #[trigger] sv[t] == (sorted@[t].0@, view_elem(
                            sorted@[t].1,
                        )),
                    out@ == old(out)@ + extras_lines(sv.take(k as int)),
                decreases n - k,
            {
                let pair = &sorted[k];
                out.push(0x2d);
                let kb = str_to_bytes(pair.0.as_str());
                push_bytes(kb.as_slice(), out);
                out.push(0x3a);
                out.push(0x20);
                let s = pair.1.to_display_string();
                let sb = str_to_bytes(s.as_str());
                push_bytes(sb.as_slice(), out);
                out.push(0x0a);
                proof {
                    lemma_extras_lines_take(sv, k as int);
                    assert(sb@ == display_bytes(sv[k as int].1));
                    assert(out@ =~= old(out)@ + extras_lines(sv.take(k + 1)));
                }
                k = k + 1;
            }
            proof {
                assert(sv.take(n as int) =~= sv);
            }
        },
    }
}

/// The forty `=` bytes of the separator line.
pub open spec fn sep_line() -> Seq<u8> {
    Seq::new(40, |i: int| 0x3du8)
}

/// Append the separator line's bytes.
fn push_sep(out: &mut Vec<u8>)
    ensures
        final(out)@ == old(out)@ + sep_line(),
{
    let mut k: usize = 0;
    proof {
        assert(out@ =~= old(out)@ + sep_line().take(0));
    }
    while k < 40
        invariant
            0 <= k <= 40,
            out@ == old(out)@ + sep_line().take(k as int),
        decreases 40 - k,
    {
        out.push(0x3d);
        proof {
            assert(out@ =~= old(out)@ + sep_line().take(k + 1));
        }
        k = k + 1;
    }
    proof {
        assert(sep_line().take(40) =~= sep_line());
    }
}

/// The text a peer's display prints: the id line when present, the
/// address line, extras in key order, and the separator line.
pub open spec fn display_peer_bytes(p: PeerView) -> Seq<u8> {
    (match p.id {
        None => Seq::<u8>::empty(),
        Some(id) => seq![0x09u8, 0x2du8, 0x69u8, 0x64u8, 0x3au8, 0x20u8] + encode_utf8(id)
            + seq![0x0au8],
    }) + seq![0x09u8, 0x2du8, 0x61u8, 0x64u8, 0x64u8, 0x72u8, 0x3au8, 0x20u8] + addr_bytes(
        p.addr,
    ) + seq![0x0au8] + extras_block(p.extra_fields) + seq![0x09u8] + sep_line() + seq![0x0au8]
}

/// Append one peer's display text.
#[verifier::rlimit(60)]
fn push_peer(p: &Peer, out: &mut Vec<u8>)
    ensures
        final(out)@ == old(out)@ + display_peer_bytes(p@),
{
    match &p.id {
        Some(id) => {
            out.push(0x09);
            out.push(0x2d);
            out.push(0x69);
            out.push(0x64);
            out.push(0x3a);
            out.push(0x20);
            let ib = str_to_bytes(id.as_str());
            push_bytes(ib.as_slice(), out);
            out.push(0x0a);
        },
        None => {},
    }
    out.push(0x09);
    out.push(0x2d);
    out.push(0x61);
    out.push(0x64);
    out.push(0x64);
    out.push(0x72);
    out.push(0x3a);
    out.push(0x20);
    push_addr(p.addr, out);
    out.push(0x0a);
    push_extras(&p.extra_fields, out);
    out.push(0x09);
    push_sep(out);
    out.push(0x0a);
    proof {
        assert(final(out)@ =~= old(out)@ + display_peer_bytes(p@));
    }
}

} // verus!

verus! {

use vstd::utf8::encode_utf8_valid_utf8;

/// ASCII byte strings are valid UTF-8.
proof fn lemma_ascii_seq_valid(b: Seq<u8>)
    requires
        forall|i: int| 0 <= i < b.len() ==> #[trigger] b[i] < 0x80,
    ensures
        valid_utf8(b),
{
    lemma_ascii_chars_encode(b);
}

/// Every extras line is valid UTF-8.
proof fn lemma_extras_line_valid(e: (Seq<char>, BencodeValue))
    ensures
        valid_utf8(extras_line(e)),
{
    broadcast use valid_utf8_concat;

    lemma_ascii_seq_valid(seq![0x2du8]);
    encode_utf8_valid_utf8(e.0);
    lemma_ascii_seq_valid(seq![0x3au8, 0x20u8]);
    lemma_display_valid(e.1);
    lemma_ascii_seq_valid(seq![0x0au8]);
    assert(valid_utf8(seq![0x2du8] + encode_utf8(e.0)));
    assert(valid_utf8((seq![0x2du8] + encode_utf8(e.0)) + seq![0x3au8, 0x20u8]));
    assert(valid_utf8(((seq![0x2du8] + encode_utf8(e.0)) + seq![0x3au8, 0x20u8]) + display_bytes(
        e.1,
    )));
    assert(valid_utf8((((seq![0x2du8] + encode_utf8(e.0)) + seq![0x3au8, 0x20u8])
        + display_bytes(e.1)) + seq![0x0au8]));
}

/// A run of extras lines is valid UTF-8.
proof fn lemma_extras_lines_valid(es: Seq<(Seq<char>, BencodeValue)>)
    ensures
        valid_utf8(extras_lines(es)),
    decreases es,
{
    broadcast use valid_utf8_concat;

    if es.len() == 0 {
        lemma_ascii_seq_valid(extras_lines(es));
    } else {
        lemma_extras_lines_valid(es.drop_last());
        lemma_extras_line_valid(es.last());
    }
}

/// An extras block is valid UTF-8.
proof fn lemma_extras_block_valid(d: Option<Seq<(Seq<char>, BencodeValue)>>)
    ensures
        valid_utf8(extras_block(d)),
{
    match d {
        None => {
            lemma_ascii_seq_valid(Seq::<u8>::empty());
        },
        Some(es) => {
            lemma_extras_lines_valid(display_sorted(es));
        },
    }
}

/// A peer's display text is valid UTF-8.
pub proof fn lemma_peer_display_valid(p: PeerView)
    ensures
        valid_utf8(display_peer_bytes(p)),
{
    broadcast use valid_utf8_concat;

    let id_part = match p.id {
        None => Seq::<u8>::empty(),
        Some(id) => seq![0x09u8, 0x2du8, 0x69u8, 0x64u8, 0x3au8, 0x20u8] + encode_utf8(id)
            + seq![0x0au8],
    };
    match p.id {
        None => {
            lemma_ascii_seq_valid(id_part);
        },
        Some(id) => {
            lemma_ascii_seq_valid(seq![0x09u8, 0x2du8, 0x69u8, 0x64u8, 0x3au8, 0x20u8]);
            encode_utf8_valid_utf8(id);
            lemma_ascii_seq_valid(seq![0x0au8]);
            assert(valid_utf8(seq![0x09u8, 0x2du8, 0x69u8, 0x64u8, 0x3au8, 0x20u8] + encode_utf8(
                id,
            )));
            assert(valid_utf8(id_part));
        },
    }
    lemma_ascii_seq_valid(seq![0x09u8, 0x2du8, 0x61u8, 0x64u8, 0x64u8, 0x72u8, 0x3au8, 0x20u8]);
    lemma_addr_ascii(p.addr);
    lemma_ascii_seq_valid(addr_bytes(p.addr));
    lemma_ascii_seq_valid(seq![0x0au8]);
    lemma_extras_block_valid(p.extra_fields);
    lemma_ascii_seq_valid(seq![0x09u8]);
    lemma_ascii_seq_valid(sep_line());
    assert(valid_utf8(id_part + seq![0x09u8, 0x2du8, 0x61u8, 0x64u8, 0x64u8, 0x72u8, 0x3au8,
        0x20u8]));
    assert(valid_utf8((id_part + seq![0x09u8, 0x2du8, 0x61u8, 0x64u8, 0x64u8, 0x72u8, 0x3au8,
        0x20u8]) + addr_bytes(p.addr)));
    assert(valid_utf8(((id_part + seq![0x09u8, 0x2du8, 0x61u8, 0x64u8, 0x64u8, 0x72u8, 0x3au8,
        0x20u8]) + addr_bytes(p.addr)) + seq![0x0au8]));
    assert(valid_utf8((((id_part + seq![0x09u8, 0x2du8, 0x61u8, 0x64u8, 0x64u8, 0x72u8, 0x3au8,
        0x20u8]) + addr_bytes(p.addr)) + seq![0x0au8]) + extras_block(p.extra_fields)));
    assert(valid_utf8(((((id_part + seq![0x09u8, 0x2du8, 0x61u8, 0x64u8, 0x64u8, 0x72u8, 0x3au8,
        0x20u8]) + addr_bytes(p.addr)) + seq![0x0au8]) + extras_block(p.extra_fields)) + seq![
        0x09u8,
    ]));
    assert(valid_utf8((((((id_part + seq![0x09u8, 0x2du8, 0x61u8, 0x64u8, 0x64u8, 0x72u8, 0x3au8,
        0x20u8]) + addr_bytes(p.addr)) + seq![0x0au8]) + extras_block(p.extra_fields)) + seq![
        0x09u8,
    ]) + sep_line()));
    assert(valid_utf8(((((((id_part + seq![0x09u8, 0x2du8, 0x61u8, 0x64u8, 0x64u8, 0x72u8,
        0x3au8, 0x20u8]) + addr_bytes(p.addr)) + seq![0x0au8]) + extras_block(p.extra_fields))
        + seq![0x09u8]) + sep_line()) + seq![0x0au8]));
}

impl Peer {
    /// The text this peer's display prints, as
    /// [`display_peer_bytes`] lays it down.
    pub fn to_display_string(&self) -> (r: String)
        ensures
            encode_utf8(r@) == display_peer_bytes(self@),
    {
        let mut out: Vec<u8> = Vec::new();
        push_peer(self, &mut out);
        proof {
            assert(out@ =~= display_peer_bytes(self@));
            lemma_peer_display_valid(self@);
        }
        match bytes_to_utf8(out.as_slice()) {
            Some(s) => s,
            None => {
                proof {
                    assert(false);
                }
                String::new()
            },
        }
    }
}

/// The peers' display texts, one after the other.
pub open spec fn peers_bytes(ps: Seq<PeerView>) -> Seq<u8>
    decreases ps,
{
    if ps.len() == 0 {
        Seq::empty()
    } else {
        peers_bytes(ps.drop_last()) + display_peer_bytes(ps.last())
    }
}

pub proof fn lemma_peers_bytes_take(ps: Seq<PeerView>, i: int)
    requires
        0 <= i < ps.len(),
    ensures
        peers_bytes(ps.take(i + 1)) == peers_bytes(ps.take(i)) + display_peer_bytes(ps[i]),
    decreases ps,
{
    if i + 1 == ps.len() {
        assert(ps.take(i + 1) =~= ps);
        assert(ps.take(i) =~= ps.drop_last());
    } else {
        lemma_peers_bytes_take(ps.drop_last(), i);
        assert(ps.drop_last().take(i + 1) =~= ps.take(i + 1));
        assert(ps.drop_last().take(i) =~= ps.take(i));
    }
}

proof fn lemma_peers_bytes_valid(ps: Seq<PeerView>)
    ensures
        valid_utf8(peers_bytes(ps)),
    decreases ps,
{
    broadcast use valid_utf8_concat;

    if ps.len() == 0 {
        lemma_ascii_seq_valid(peers_bytes(ps));
    } else {
        lemma_peers_bytes_valid(ps.drop_last());
        lemma_peer_display_valid(ps.last());
    }
}

/// A line holding a literal prefix, an integer and a newline, when the
/// field is present.
pub open spec fn opt_int_line(pre: Seq<u8>, v: Option<int>) -> Seq<u8> {
    match v {
        None => Seq::empty(),
        Some(i) => pre + int_digits(i) + seq![0x0au8],
    }
}

/// A line holding a literal prefix, a string and a newline, when the
/// field is present.
pub open spec fn opt_str_line(pre: Seq<u8>, s: Option<Seq<char>>) -> Seq<u8> {
    match s {
        None => Seq::empty(),
        Some(x) => pre + encode_utf8(x) + seq![0x0au8],
    }
}

proof fn lemma_opt_int_line_valid(pre: Seq<u8>, v: Option<int>)
    requires
        forall|i: int| 0 <= i < pre.len() ==> #[trigger] pre[i] < 0x80,
    ensures
        valid_utf8(opt_int_line(pre, v)),
{
    broadcast use valid_utf8_concat;

    match v {
        None => {
            lemma_ascii_seq_valid(Seq::<u8>::empty());
        },
        Some(i) => {
            lemma_ascii_seq_valid(pre);
            lemma_int_digits_ascii(i);
            lemma_ascii_seq_valid(int_digits(i));
            lemma_ascii_seq_valid(seq![0x0au8]);
            assert(valid_utf8(pre + int_digits(i)));
            assert(valid_utf8((pre + int_digits(i)) + seq![0x0au8]));
        },
    }
}

proof fn lemma_opt_str_line_valid(pre: Seq<u8>, s: Option<Seq<char>>)
    requires
        forall|i: int| 0 <= i < pre.len() ==> #[trigger] pre[i] < 0x80,
    ensures
        valid_utf8(opt_str_line(pre, s)),
{
    broadcast use valid_utf8_concat;

    match s {
        None => {
            lemma_ascii_seq_valid(Seq::<u8>::empty());
        },
        Some(x) => {
            lemma_ascii_seq_valid(pre);
            encode_utf8_valid_utf8(x);
            lemma_ascii_seq_valid(seq![0x0au8]);
            assert(valid_utf8(pre + encode_utf8(x)));
            assert(valid_utf8((pre + encode_utf8(x)) + seq![0x0au8]));
        },
    }
}

/// Append a literal prefix, an integer and a newline when the field is
/// present.
fn push_opt_int_line(lit: &[u8], v: &Option<i64>, out: &mut Vec<u8>)
    ensures
        final(out)@ == old(out)@ + opt_int_line(lit@, crate::tracker::view_opt_int(*v)),
{
    match v {
        None => {
            proof {
                assert(final(out)@ =~= old(out)@ + opt_int_line(
                    lit@,
                    crate::tracker::view_opt_int(*v),
                ));
            }
        },
        Some(i) => {
            push_bytes(lit, out);
            crate::strings::push_dec_i64(*i, out);
            out.push(0x0a);
            proof {
                assert(final(out)@ =~= old(out)@ + opt_int_line(
                    lit@,
                    crate::tracker::view_opt_int(*v),
                ));
            }
        },
    }
}

/// Append a literal prefix, a string and a newline when the field is
/// present.
fn push_opt_str_line(lit: &[u8], s: &Option<String>, out: &mut Vec<u8>)
    ensures
        final(out)@ == old(out)@ + opt_str_line(lit@, crate::tracker::view_opt_string(*s)),
{
    match s {
        None => {
            proof {
                assert(final(out)@ =~= old(out)@ + opt_str_line(
                    lit@,
                    crate::tracker::view_opt_string(*s),
                ));
            }
        },
        Some(x) => {
            push_bytes(lit, out);
            let xb = str_to_bytes(x.as_str());
            push_bytes(xb.as_slice(), out);
            out.push(0x0a);
            proof {
                assert(final(out)@ =~= old(out)@ + opt_str_line(
                    lit@,
                    crate::tracker::view_opt_string(*s),
                ));
            }
        },
    }
}

} // verus!

verus! {

/// The text an announce response's display prints: the interval line,
/// each optional field's line when present, extras in key order, the
/// peer count line, and every peer's text.
pub open spec fn display_response_bytes(t: TrackerResponseView) -> Seq<u8> {
    seq![0x2du8, 0x69u8, 0x6eu8, 0x74u8, 0x65u8, 0x72u8, 0x76u8, 0x61u8, 0x6cu8, 0x3au8, 0x20u8]
        + int_digits(t.interval) + seq![0x0au8] + opt_int_line(
        seq![0x2du8, 0x6du8, 0x69u8, 0x6eu8, 0x5fu8, 0x69u8, 0x6eu8, 0x74u8, 0x65u8, 0x72u8,
            0x76u8, 0x61u8, 0x6cu8, 0x3au8, 0x20u8],
        t.min_interval,
    ) + opt_str_line(
        seq![0x2du8, 0x77u8, 0x61u8, 0x72u8, 0x6eu8, 0x69u8, 0x6eu8, 0x67u8, 0x3au8, 0x20u8],
        t.warning,
    ) + opt_str_line(
        seq![0x2du8, 0x74u8, 0x72u8, 0x61u8, 0x63u8, 0x6bu8, 0x65u8, 0x72u8, 0x5fu8, 0x69u8,
            0x64u8, 0x3au8, 0x20u8],
        t.tracker_id,
    ) + opt_int_line(
        seq![0x2du8, 0x63u8, 0x6fu8, 0x6du8, 0x70u8, 0x6cu8, 0x65u8, 0x74u8, 0x65u8, 0x3au8,
            0x20u8],
        t.complete,
    ) + opt_int_line(
        seq![0x2du8, 0x69u8, 0x6eu8, 0x63u8, 0x6fu8, 0x6du8, 0x70u8, 0x6cu8, 0x65u8, 0x74u8,
            0x65u8, 0x3au8, 0x20u8],
        t.incomplete,
    ) + extras_block(t.extra_fields) + seq![0x2du8, 0x70u8, 0x65u8, 0x65u8, 0x72u8, 0x73u8,
        0x20u8, 0x28u8] + dec_digits(t.peers.len()) + seq![0x29u8, 0x3au8, 0x0au8] + peers_bytes(
        t.peers,
    ) + seq![0x0au8]
}

/// The announce display text is valid UTF-8.
pub proof fn lemma_response_display_valid(t: TrackerResponseView)
    ensures
        valid_utf8(display_response_bytes(t)),
{
    broadcast use valid_utf8_concat;

    let l_iv = seq![0x2du8, 0x69u8, 0x6eu8, 0x74u8, 0x65u8, 0x72u8, 0x76u8, 0x61u8, 0x6cu8,
        0x3au8, 0x20u8];
    let l_min = seq![0x2du8, 0x6du8, 0x69u8, 0x6eu8, 0x5fu8, 0x69u8, 0x6eu8, 0x74u8, 0x65u8,
        0x72u8, 0x76u8, 0x61u8, 0x6cu8, 0x3au8, 0x20u8];
    let l_warn = seq![0x2du8, 0x77u8, 0x61u8, 0x72u8, 0x6eu8, 0x69u8, 0x6eu8, 0x67u8, 0x3au8,
        0x20u8];
    let l_tid = seq![0x2du8, 0x74u8, 0x72u8, 0x61u8, 0x63u8, 0x6bu8, 0x65u8, 0x72u8, 0x5fu8,
        0x69u8, 0x64u8, 0x3au8, 0x20u8];
    let l_c = seq![0x2du8, 0x63u8, 0x6fu8, 0x6du8, 0x70u8, 0x6cu8, 0x65u8, 0x74u8, 0x65u8,
        0x3au8, 0x20u8];
    let l_inc = seq![0x2du8, 0x69u8, 0x6eu8, 0x63u8, 0x6fu8, 0x6du8, 0x70u8, 0x6cu8, 0x65u8,
        0x74u8, 0x65u8, 0x3au8, 0x20u8];
    let l_peers = seq![0x2du8, 0x70u8, 0x65u8, 0x65u8, 0x72u8, 0x73u8, 0x20u8, 0x28u8];
    let l_tail = seq![0x29u8, 0x3au8, 0x0au8];
    lemma_ascii_seq_valid(l_iv);
    lemma_int_digits_ascii(t.interval);
    lemma_ascii_seq_valid(int_digits(t.interval));
    lemma_ascii_seq_valid(seq![0x0au8]);
    lemma_opt_int_line_valid(l_min, t.min_interval);
    lemma_opt_str_line_valid(l_warn, t.warning);
    lemma_opt_str_line_valid(l_tid, t.tracker_id);
    lemma_opt_int_line_valid(l_c, t.complete);
    lemma_opt_int_line_valid(l_inc, t.incomplete);
    lemma_extras_block_valid(t.extra_fields);
    lemma_ascii_seq_valid(l_peers);
    lemma_dec_digits_ascii(t.peers.len());
    lemma_ascii_seq_valid(dec_digits(t.peers.len()));
    lemma_ascii_seq_valid(l_tail);
    lemma_peers_bytes_valid(t.peers);
    let s1 = l_iv + int_digits(t.interval);
    assert(valid_utf8(s1));
    let s2 = s1 + seq![0x0au8];
    assert(valid_utf8(s2));
    let s3 = s2 + opt_int_line(l_min, t.min_interval);
    assert(valid_utf8(s3));
    let s4 = s3 + opt_str_line(l_warn, t.warning);
    assert(valid_utf8(s4));
    let s5 = s4 + opt_str_line(l_tid, t.tracker_id);
    assert(valid_utf8(s5));
    let s6 = s5 + opt_int_line(l_c, t.complete);
    assert(valid_utf8(s6));
    let s7 = s6 + opt_int_line(l_inc, t.incomplete);
    assert(valid_utf8(s7));
    let s8 = s7 + extras_block(t.extra_fields);
    assert(valid_utf8(s8));
    let s9 = s8 + l_peers;
    assert(valid_utf8(s9));
    let s10 = s9 + dec_digits(t.peers.len());
    assert(valid_utf8(s10));
    let s11 = s10 + l_tail;
    assert(valid_utf8(s11));
    let s12 = s11 + peers_bytes(t.peers);
    assert(valid_utf8(s12));
    assert(valid_utf8(s12 + seq![0x0au8]));
}

impl TrackerResponse {
    /// The text this response's display prints, as
    /// [`display_response_bytes`] lays it down.
    #[verifier::loop_isolation(false)]
    #[verifier::rlimit(100)]
    pub fn to_display_string(&self) -> (r: String)
        ensures
            encode_utf8(r@) == display_response_bytes(self@),
    {
        let mut out: Vec<u8> = Vec::new();
        out.push(0x2d);
        out.push(0x69);
        out.push(0x6e);
        out.push(0x74);
        out.push(0x65);
        out.push(0x72);
        out.push(0x76);
        out.push(0x61);
        out.push(0x6c);
        out.push(0x3a);
        out.push(0x20);
        crate::strings::push_dec_i64(self.interval, &mut out);
        out.push(0x0a);
        let ghost l_iv = seq![0x2du8, 0x69u8, 0x6eu8, 0x74u8, 0x65u8, 0x72u8, 0x76u8, 0x61u8,
            0x6cu8, 0x3au8, 0x20u8];
        let ghost mut acc: Seq<u8> = l_iv + int_digits(self@.interval) + seq![0x0au8];
        proof {
            assert(out@ =~= acc);
        }
        let mut l_min: Vec<u8> = Vec::new();
        l_min.push(0x2d);
        l_min.push(0x6d);
        l_min.push(0x69);
        l_min.push(0x6e);
        l_min.push(0x5f);
        l_min.push(0x69);
        l_min.push(0x6e);
        l_min.push(0x74);
        l_min.push(0x65);
        l_min.push(0x72);
        l_min.push(0x76);
        l_min.push(0x61);
        l_min.push(0x6c);
        l_min.push(0x3a);
        l_min.push(0x20);
        push_opt_int_line(l_min.as_slice(), &self.min_interval, &mut out);
        proof {
            assert(l_min@ =~= seq![0x2du8, 0x6du8, 0x69u8, 0x6eu8, 0x5fu8, 0x69u8, 0x6eu8,
                0x74u8, 0x65u8, 0x72u8, 0x76u8, 0x61u8, 0x6cu8, 0x3au8, 0x20u8]);
            acc = acc + opt_int_line(l_min@, self@.min_interval);
            assert(out@ =~= acc);
        }
        let mut l_warn: Vec<u8> = Vec::new();
        l_warn.push(0x2d);
        l_warn.push(0x77);
        l_warn.push(0x61);
        l_warn.push(0x72);
        l_warn.push(0x6e);
        l_warn.push(0x69);
        l_warn.push(0x6e);
        l_warn.push(0x67);
        l_warn.push(0x3a);
        l_warn.push(0x20);
        push_opt_str_line(l_warn.as_slice(), &self.warning, &mut out);
        proof {
            assert(l_warn@ =~= seq![0x2du8, 0x77u8, 0x61u8, 0x72u8, 0x6eu8, 0x69u8, 0x6eu8,
                0x67u8, 0x3au8, 0x20u8]);
            acc = acc + opt_str_line(l_warn@, self@.warning);
            assert(out@ =~= acc);
        }
        let mut l_tid: Vec<u8> = Vec::new();
        l_tid.push(0x2d);
        l_tid.push(0x74);
        l_tid.push(0x72);
        l_tid.push(0x61);
        l_tid.push(0x63);
        l_tid.push(0x6b);
        l_tid.push(0x65);
        l_tid.push(0x72);
        l_tid.push(0x5f);
        l_tid.push(0x69);
        l_tid.push(0x64);
        l_tid.push(0x3a);
        l_tid.push(0x20);
        push_opt_str_line(l_tid.as_slice(), &self.tracker_id, &mut out);
        proof {
            assert(l_tid@ =~= seq![0x2du8, 0x74u8, 0x72u8, 0x61u8, 0x63u8, 0x6bu8, 0x65u8,
                0x72u8, 0x5fu8, 0x69u8, 0x64u8, 0x3au8, 0x20u8]);
            acc = acc + opt_str_line(l_tid@, self@.tracker_id);
            assert(out@ =~= acc);
        }
        let mut l_c: Vec<u8> = Vec::new();
        l_c.push(0x2d);
        l_c.push(0x63);
        l_c.push(0x6f);
        l_c.push(0x6d);
        l_c.push(0x70);
        l_c.push(0x6c);
        l_c.push(0x65);
        l_c.push(0x74);
        l_c.push(0x65);
        l_c.push(0x3a);
        l_c.push(0x20);
        push_opt_int_line(l_c.as_slice(), &self.complete, &mut out);
        proof {
            assert(l_c@ =~= seq![0x2du8, 0x63u8, 0x6fu8, 0x6du8, 0x70u8, 0x6cu8, 0x65u8, 0x74u8,
                0x65u8, 0x3au8, 0x20u8]);
            acc = acc + opt_int_line(l_c@, self@.complete);
            assert(out@ =~= acc);
        }
        let mut l_inc: Vec<u8> = Vec::new();
        l_inc.push(0x2d);
        l_inc.push(0x69);
        l_inc.push(0x6e);
        l_inc.push(0x63);
        l_inc.push(0x6f);
        l_inc.push(0x6d);
        l_inc.push(0x70);
        l_inc.push(0x6c);
        l_inc.push(0x65);
        l_inc.push(0x74);
        l_inc.push(0x65);
        l_inc.push(0x3a);
        l_inc.push(0x20);
        push_opt_int_line(l_inc.as_slice(), &self.incomplete, &mut out);
        proof {
            assert(l_inc@ =~= seq![0x2du8, 0x69u8, 0x6eu8, 0x63u8, 0x6fu8, 0x6du8, 0x70u8,
                0x6cu8, 0x65u8, 0x74u8, 0x65u8, 0x3au8, 0x20u8]);
            acc = acc + opt_int_line(l_inc@, self@.incomplete);
            assert(out@ =~= acc);
        }
        push_extras(&self.extra_fields, &mut out);
        proof {
            acc = acc + extras_block(self@.extra_fields);
            assert(out@ =~= acc);
        }
        out.push(0x2d);
        out.push(0x70);
        out.push(0x65);
        out.push(0x65);
        out.push(0x72);
        out.push(0x73);
        out.push(0x20);
        out.push(0x28);
        let n_peers: usize = self.peers.len();
        crate::strings::push_dec_u64(n_peers as u64, &mut out);
        out.push(0x29);
        out.push(0x3a);
        out.push(0x0a);
        proof {
            acc = acc + seq![0x2du8, 0x70u8, 0x65u8, 0x65u8, 0x72u8, 0x73u8, 0x20u8, 0x28u8]
                + dec_digits(self@.peers.len()) + seq![0x29u8, 0x3au8, 0x0au8];
            assert(out@ =~= acc);
        }
        let ghost pv = view_peers(self.peers@);
        let mut k: usize = 0;
        proof {
            assert(pv.take(0) =~= Seq::<PeerView>::empty());
            assert(out@ =~= acc + peers_bytes(pv.take(0)));
        }
        while k < n_peers
            invariant
                0 <= k <= n_peers,
                n_peers == self.peers@.len(),
                pv == view_peers(self.peers@),
                pv.len() == n_peers,
                out@ == acc + peers_bytes(pv.take(k as int)),
            decreases n_peers - k,
        {
            let p = &self.peers[k];
            proof {
                assert(pv[k as int] == p@);
            }
            push_peer(p, &mut out);
            proof {
                lemma_peers_bytes_take(pv, k as int);
                assert(out@ =~= acc + peers_bytes(pv.take(k + 1)));
            }
            k = k + 1;
        }
        out.push(0x0a);
        proof {
            assert(pv.take(n_peers as int) =~= pv);
            assert(out@ =~= acc + peers_bytes(pv) + seq![0x0au8]);
            assert(out@ =~= display_response_bytes(self@));
            lemma_response_display_valid(self@);
        }
        match bytes_to_utf8(out.as_slice()) {
            Some(s) => s,
            None => {
                proof {
                    assert(false);
                }
                String::new()
            },
        }
    }
}

} // verus!

verus! {

/// The text a swarm entry's display prints: the three counter lines,
/// extras in key order, and the separator line.
pub open spec fn display_swarm_bytes(m: SwarmMetadataView) -> Seq<u8> {
    seq![0x2du8, 0x63u8, 0x6fu8, 0x6du8, 0x70u8, 0x6cu8, 0x65u8, 0x74u8, 0x65u8, 0x3au8, 0x20u8]
        + int_digits(m.complete) + seq![0x0au8] + seq![0x2du8, 0x69u8, 0x6eu8, 0x63u8, 0x6fu8,
        0x6du8, 0x70u8, 0x6cu8, 0x65u8, 0x74u8, 0x65u8, 0x3au8, 0x20u8] + int_digits(
        m.incomplete,
    ) + seq![0x0au8] + seq![0x2du8, 0x64u8, 0x6fu8, 0x77u8, 0x6eu8, 0x6cu8, 0x6fu8, 0x61u8,
        0x64u8, 0x65u8, 0x64u8, 0x3au8, 0x20u8] + int_digits(m.downloaded) + seq![0x0au8]
        + extras_block(m.extra_fields) + sep_line() + seq![0x0au8]
}

/// The swarm display text is valid UTF-8.
pub proof fn lemma_swarm_display_valid(m: SwarmMetadataView)
    ensures
        valid_utf8(display_swarm_bytes(m)),
{
    broadcast use valid_utf8_concat;

    let l_c = seq![0x2du8, 0x63u8, 0x6fu8, 0x6du8, 0x70u8, 0x6cu8, 0x65u8, 0x74u8, 0x65u8,
        0x3au8, 0x20u8];
    let l_inc = seq![0x2du8, 0x69u8, 0x6eu8, 0x63u8, 0x6fu8, 0x6du8, 0x70u8, 0x6cu8, 0x65u8,
        0x74u8, 0x65u8, 0x3au8, 0x20u8];
    let l_d = seq![0x2du8, 0x64u8, 0x6fu8, 0x77u8, 0x6eu8, 0x6cu8, 0x6fu8, 0x61u8, 0x64u8,
        0x65u8, 0x64u8, 0x3au8, 0x20u8];
    lemma_ascii_seq_valid(l_c);
    lemma_ascii_seq_valid(l_inc);
    lemma_ascii_seq_valid(l_d);
    lemma_int_digits_ascii(m.complete);
    lemma_ascii_seq_valid(int_digits(m.complete));
    lemma_int_digits_ascii(m.incomplete);
    lemma_ascii_seq_valid(int_digits(m.incomplete));
    lemma_int_digits_ascii(m.downloaded);
    lemma_ascii_seq_valid(int_digits(m.downloaded));
    lemma_ascii_seq_valid(seq![0x0au8]);
    lemma_extras_block_valid(m.extra_fields);
    lemma_ascii_seq_valid(sep_line());
    let s1 = l_c + int_digits(m.complete);
    assert(valid_utf8(s1));
    let s2 = s1 + seq![0x0au8];
    assert(valid_utf8(s2));
    let s3 = s2 + l_inc;
    assert(valid_utf8(s3));
    let s4 = s3 + int_digits(m.incomplete);
    assert(valid_utf8(s4));
    let s5 = s4 + seq![0x0au8];
    assert(valid_utf8(s5));
    let s6 = s5 + l_d;
    assert(valid_utf8(s6));
    let s7 = s6 + int_digits(m.downloaded);
    assert(valid_utf8(s7));
    let s8 = s7 + seq![0x0au8];
    assert(valid_utf8(s8));
    let s9 = s8 + extras_block(m.extra_fields);
    assert(valid_utf8(s9));
    let s10 = s9 + sep_line();
    assert(valid_utf8(s10));
    assert(valid_utf8(s10 + seq![0x0au8]));
}

/// Append one swarm entry's display text.
#[verifier::rlimit(100)]
fn push_swarm(m: &SwarmMetadata, out: &mut Vec<u8>)
    ensures
        final(out)@ == old(out)@ + display_swarm_bytes(m@),
{
    out.push(0x2d);
    out.push(0x63);
    out.push(0x6f);
    out.push(0x6d);
    out.push(0x70);
    out.push(0x6c);
    out.push(0x65);
    out.push(0x74);
    out.push(0x65);
    out.push(0x3a);
    out.push(0x20);
    crate::strings::push_dec_i64(m.complete, out);
    out.push(0x0a);
    let ghost mut acc: Seq<u8> = seq![0x2du8, 0x63u8, 0x6fu8, 0x6du8, 0x70u8, 0x6cu8, 0x65u8,
        0x74u8, 0x65u8, 0x3au8, 0x20u8] + int_digits(m@.complete) + seq![0x0au8];
    proof {
        assert(out@ =~= old(out)@ + acc);
    }
    out.push(0x2d);
    out.push(0x69);
    out.push(0x6e);
    out.push(0x63);
    out.push(0x6f);
    out.push(0x6d);
    out.push(0x70);
    out.push(0x6c);
    out.push(0x65);
    out.push(0x74);
    out.push(0x65);
    out.push(0x3a);
    out.push(0x20);
    crate::strings::push_dec_i64(m.incomplete, out);
    out.push(0x0a);
    proof {
        acc = acc + seq![0x2du8, 0x69u8, 0x6eu8, 0x63u8, 0x6fu8, 0x6du8, 0x70u8, 0x6cu8, 0x65u8,
            0x74u8, 0x65u8, 0x3au8, 0x20u8] + int_digits(m@.incomplete) + seq![0x0au8];
        assert(out@ =~= old(out)@ + acc);
    }
    out.push(0x2d);
    out.push(0x64);
    out.push(0x6f);
    out.push(0x77);
    out.push(0x6e);
    out.push(0x6c);
    out.push(0x6f);
    out.push(0x61);
    out.push(0x64);
    out.push(0x65);
    out.push(0x64);
    out.push(0x3a);
    out.push(0x20);
    crate::strings::push_dec_i64(m.downloaded, out);
    out.push(0x0a);
    proof {
        acc = acc + seq![0x2du8, 0x64u8, 0x6fu8, 0x77u8, 0x6eu8, 0x6cu8, 0x6fu8, 0x61u8, 0x64u8,
            0x65u8, 0x64u8, 0x3au8, 0x20u8] + int_digits(m@.downloaded) + seq![0x0au8];
        assert(out@ =~= old(out)@ + acc);
    }
    push_extras(&m.extra_fields, out);
    push_sep(out);
    out.push(0x0a);
    proof {
        assert(final(out)@ =~= old(out)@ + acc + extras_block(m@.extra_fields) + sep_line()
            + seq![0x0au8]);
        assert(final(out)@ =~= old(out)@ + display_swarm_bytes(m@));
    }
}

impl SwarmMetadata {
    /// The text this swarm entry's display prints, as
    /// [`display_swarm_bytes`] lays it down.
    pub fn to_display_string(&self) -> (r: String)
        ensures
            encode_utf8(r@) == display_swarm_bytes(self@),
    {
        let mut out: Vec<u8> = Vec::new();
        push_swarm(self, &mut out);
        proof {
            assert(out@ =~= display_swarm_bytes(self@));
            lemma_swarm_display_valid(self@);
        }
        match bytes_to_utf8(out.as_slice()) {
            Some(s) => s,
            None => {
                proof {
                    assert(false);
                }
                String::new()
            },
        }
    }
}

/// The file-table lines of a scrape display: each raw key in
/// hexadecimal, a newline, and the swarm entry's text.
pub open spec fn scrape_files_bytes(fs: Seq<(Seq<u8>, SwarmMetadataView)>) -> Seq<u8>
    decreases fs,
{
    if fs.len() == 0 {
        Seq::empty()
    } else {
        scrape_files_bytes(fs.drop_last()) + hex_bytes(fs.last().0) + seq![0x0au8]
            + display_swarm_bytes(fs.last().1)
    }
}

pub proof fn lemma_scrape_files_bytes_take(fs: Seq<(Seq<u8>, SwarmMetadataView)>, i: int)
    requires
        0 <= i < fs.len(),
    ensures
        scrape_files_bytes(fs.take(i + 1)) == scrape_files_bytes(fs.take(i)) + hex_bytes(
            fs[i].0,
        ) + seq![0x0au8] + display_swarm_bytes(fs[i].1),
    decreases fs,
{
    if i + 1 == fs.len() {
        assert(fs.take(i + 1) =~= fs);
        assert(fs.take(i) =~= fs.drop_last());
    } else {
        lemma_scrape_files_bytes_take(fs.drop_last(), i);
        assert(fs.drop_last().take(i + 1) =~= fs.take(i + 1));
        assert(fs.drop_last().take(i) =~= fs.take(i));
    }
}

proof fn lemma_scrape_files_bytes_valid(fs: Seq<(Seq<u8>, SwarmMetadataView)>)
    ensures
        valid_utf8(scrape_files_bytes(fs)),
    decreases fs,
{
    broadcast use valid_utf8_concat;

    if fs.len() == 0 {
        lemma_ascii_seq_valid(scrape_files_bytes(fs));
    } else {
        lemma_scrape_files_bytes_valid(fs.drop_last());
        lemma_hex_bytes_ascii(fs.last().0);
        lemma_ascii_seq_valid(hex_bytes(fs.last().0));
        lemma_ascii_seq_valid(seq![0x0au8]);
        lemma_swarm_display_valid(fs.last().1);
        let s1 = scrape_files_bytes(fs.drop_last()) + hex_bytes(fs.last().0);
        assert(valid_utf8(s1));
        let s2 = s1 + seq![0x0au8];
        assert(valid_utf8(s2));
        assert(valid_utf8(s2 + display_swarm_bytes(fs.last().1)));
    }
}

/// The text a scrape response's display prints: the `files:` header,
/// each entry's key and swarm text in response order, and extras in
/// key order.
pub open spec fn display_scrape_bytes(t: TrackerScrapeResponseView) -> Seq<u8> {
    seq![0x66u8, 0x69u8, 0x6cu8, 0x65u8, 0x73u8, 0x3au8, 0x0au8] + scrape_files_bytes(t.files)
        + extras_block(t.extra_fields)
}

/// The scrape display text is valid UTF-8.
pub proof fn lemma_scrape_display_valid(t: TrackerScrapeResponseView)
    ensures
        valid_utf8(display_scrape_bytes(t)),
{
    broadcast use valid_utf8_concat;

    lemma_ascii_seq_valid(seq![0x66u8, 0x69u8, 0x6cu8, 0x65u8, 0x73u8, 0x3au8, 0x0au8]);
    lemma_scrape_files_bytes_valid(t.files);
    lemma_extras_block_valid(t.extra_fields);
    let s1 = seq![0x66u8, 0x69u8, 0x6cu8, 0x65u8, 0x73u8, 0x3au8, 0x0au8] + scrape_files_bytes(
        t.files,
    );
    assert(valid_utf8(s1));
    assert(valid_utf8(s1 + extras_block(t.extra_fields)));
}

impl TrackerScrapeResponse {
    /// The text this scrape response's display prints, as
    /// [`display_scrape_bytes`] lays it down.
    #[verifier::loop_isolation(false)]
    #[verifier::rlimit(100)]
    pub fn to_display_string(&self) -> (r: String)
        ensures
            encode_utf8(r@) == display_scrape_bytes(self@),
    {
        let mut out: Vec<u8> = Vec::new();
        out.push(0x66);
        out.push(0x69);
        out.push(0x6c);
        out.push(0x65);
        out.push(0x73);
        out.push(0x3a);
        out.push(0x0a);
        let ghost head = seq![0x66u8, 0x69u8, 0x6cu8, 0x65u8, 0x73u8, 0x3au8, 0x0au8];
        let ghost fv = view_swarm_files(self.files@);
        let n: usize = self.files.len();
        let mut k: usize = 0;
        proof {
            assert(fv.take(0) =~= Seq::<(Seq<u8>, SwarmMetadataView)>::empty());
            assert(out@ =~= head + scrape_files_bytes(fv.take(0)));
        }
        while k < n
            invariant
                0 <= k <= n,
                n == self.files@.len(),
                fv == view_swarm_files(self.files@),
                fv.len() == n,
                out@ == head + scrape_files_bytes(fv.take(k as int)),
            decreases n - k,
        {
            let entry = &self.files[k];
            proof {
                assert(fv[k as int] == (entry.0@, entry.1@));
            }
            push_hex(entry.0.as_slice(), &mut out);
            out.push(0x0a);
            push_swarm(&entry.1, &mut out);
            proof {
                lemma_scrape_files_bytes_take(fv, k as int);
                assert(out@ =~= head + scrape_files_bytes(fv.take(k + 1)));
            }
            k = k + 1;
        }
        push_extras(&self.extra_fields, &mut out);
        proof {
            assert(fv.take(n as int) =~= fv);
            assert(out@ =~= display_scrape_bytes(self@));
            lemma_scrape_display_valid(self@);
        }
        match bytes_to_utf8(out.as_slice()) {
            Some(s) => s,
            None => {
                proof {
                    assert(false);
                }
                String::new()
            },
        }
    }
}

} // verus!
