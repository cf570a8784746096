use vstd::prelude::*;

verus! {

use crate::bencode::{BencodeElem, BencodeValue, view_elem, view_dict, view_raw_dict, view_list,
    spec_dict_get, lemma_view_dict_index};
use crate::error::{ErrorKind, LavaError};
use crate::ip::{PeerIp, PeerAddr, spec_parse_ip, parse_ip};
use crate::torrent::Dictionary;
use crate::strings::str_eq;

/// The key occurs in the list.
pub open spec fn key_in(k: Seq<char>, ks: Seq<Seq<char>>) -> bool {
    exists|j: int| 0 <= j < ks.len() && ks[j] == k
}

/// The value of an optional element.
pub open spec fn opt_elem_view(o: Option<BencodeElem>) -> Option<BencodeValue> {
    match o {
        None => None,
        Some(e) => Some(view_elem(e)),
    }
}

/// Looking one entry further: a hit in the front entries wins; else the
/// new entry decides.
pub proof fn lemma_dict_get_push(
    es: Seq<(Seq<char>, BencodeValue)>,
    e: (Seq<char>, BencodeValue),
    k: Seq<char>,
)
    ensures
        spec_dict_get(es.push(e), k) == (match spec_dict_get(es, k) {
            Some(v) => Some(v),
            None => if e.0 == k {
                Some(e.1)
            } else {
                None
            },
        }),
    decreases es,
{
    if es.len() == 0 {
        assert(es.push(e)[0] == e);
        assert(es.push(e).drop_first() =~= Seq::<(Seq<char>, BencodeValue)>::empty());
        assert(spec_dict_get(Seq::<(Seq<char>, BencodeValue)>::empty(), k) is None);
    } else {
        lemma_dict_get_push(es.drop_first(), e, k);
        assert(es.push(e)[0] == es[0]);
        assert(es.push(e).drop_first() =~= es.drop_first().push(e));
    }
}

/// Take a dictionary apart: one slot for each listed key, holding its
/// first value, and the entries under other keys, in their order.
#[verifier::loop_isolation(false)]
pub fn split_dict(dict: Vec<(String, BencodeElem)>, keys: &Vec<String>) -> (r: (
    Vec<Option<BencodeElem>>,
    Vec<(String, BencodeElem)>,
))
    requires
        forall|a: int, b: int| 0 <= a < b < keys@.len() ==> (#[trigger] keys@[a])@ != (
        #[trigger] keys@[b])@,
    ensures
        ({
            let (slots, extras) = r;
            &&& slots@.len() == keys@.len()
            &&& (forall|j: int|
                0 <= j < keys@.len() ==> opt_elem_view(#[trigger] slots@[j]) == spec_dict_get(
                    view_dict(dict@),
                    keys@[j]@,
                ))
            &&& view_dict(extras@) == view_dict(dict@).filter(
                (|kv: (Seq<char>, BencodeValue)| !key_in(kv.0, keys.deep_view())),
            )
        }),
{
    let ghost full = view_dict(dict@);
    let ghost kv_pred = |kv: (Seq<char>, BencodeValue)| !key_in(kv.0, keys.deep_view());
    proof {
        lemma_view_dict_index(dict@);
    }
    let n_keys: usize = keys.len();
    let mut slots: Vec<Option<BencodeElem>> = Vec::new();
    let mut kinit: usize = 0;
    while kinit < n_keys
        invariant
            0 <= kinit <= n_keys,
            slots@.len() == kinit,
            forall|j: int| 0 <= j < kinit ==> (#[trigger] slots@[j]) is None,
        decreases n_keys - kinit,
    {
        slots.push(None);
        kinit = kinit + 1;
    }
    let mut extras: Vec<(String, BencodeElem)> = Vec::new();
    let mut rest = dict;
    let ghost dict0 = rest@;
    let ghost mut done: Seq<(Seq<char>, BencodeValue)> = Seq::empty();
    proof {
        reveal(Seq::filter);
        assert(rest@ =~= dict0.skip(0));
        assert(view_dict(extras@) =~= Seq::<(Seq<char>, BencodeValue)>::empty());
        assert(done.filter(kv_pred) =~= Seq::<(Seq<char>, BencodeValue)>::empty());
        assert forall|j: int| 0 <= j < n_keys implies opt_elem_view(#[trigger] slots@[j])
            == spec_dict_get(done, keys@[j]@) by {}
    }
    let mut t: usize = 0;
    let n: usize = rest.len();
    while t < n
        invariant
            0 <= t <= n,
            n == dict0.len(),
            t + rest@.len() == n,
            rest@ =~= dict0.skip(t as int),
            full == view_dict(dict0),
            full.len() == n,
            forall|s: int|
                0 <= s < n ==> #[trigger] full[s] == (dict0[s].0@, view_elem(dict0[s].1)),
            done =~= full.take(t as int),
            slots@.len() == n_keys,
            forall|j: int|
                0 <= j < n_keys ==> opt_elem_view(#[trigger] slots@[j]) == spec_dict_get(
                    done,
                    keys@[j]@,
                ),
            view_dict(extras@) == done.filter(kv_pred),
        decreases n - t,
    {
        let (k, v) = rest.remove(0);
        proof {
            assert(dict0.skip(t as int)[0] == dict0[t as int]);
            assert(rest@ =~= dict0.skip(t + 1));
        }
        let ghost entry = (k@, view_elem(v));
        proof {
            assert(full[t as int] == entry);
            assert(full.take(t + 1).drop_last() =~= full.take(t as int));
            assert(full.take(t + 1).last() == entry);
            assert(full.take(t + 1) =~= done.push(entry));
        }
        let mut j: usize = 0;
        let mut hit: bool = false;
        while j < n_keys && !hit
            invariant
                0 <= j <= n_keys,
                n_keys == keys@.len(),
                hit ==> j >= 1 && keys@[j - 1]@ == k@ && (forall|s: int|
                    0 <= s < j - 1 ==> #[trigger] keys@[s]@ != k@),
                !hit ==> (forall|s: int| 0 <= s < j ==> #[trigger] keys@[s]@ != k@),
            decreases n_keys - j + (if hit {
                0int
            } else {
                1int
            }),
        {
            if str_eq(keys[j].as_str(), k.as_str()) {
                hit = true;
            }
            j = j + 1;
        }
        if hit {
            let hit_idx = j - 1;
            let is_empty = slots[hit_idx].is_none();
            if is_empty {
                let ghost old_slots = slots@;
                slots[hit_idx] = Some(v);
                proof {
                    assert(slots@ =~= old_slots.update(hit_idx as int, Some(v)));
                }
            }
            proof {
                reveal(Seq::filter);
                assert(!kv_pred(entry)) by {
                    assert(keys.deep_view()[hit_idx as int] == keys@[hit_idx as int]@);
                }
                assert(done.push(entry).filter(kv_pred) =~= done.filter(kv_pred));
                assert forall|jj: int|
                    0 <= jj < n_keys implies opt_elem_view(#[trigger] slots@[jj])
                    == spec_dict_get(done.push(entry), keys@[jj]@) by {
                    lemma_dict_get_push(done, entry, keys@[jj]@);
                    if jj != hit_idx {
                        if jj < hit_idx {
                            assert(keys@[jj]@ != keys@[hit_idx as int]@);
                        } else {
                            assert(keys@[hit_idx as int]@ != keys@[jj]@);
                        }
                        assert(entry.0 != keys@[jj]@);
                    }
                }
                done = done.push(entry);
            }
        } else {
            proof {
                reveal(Seq::filter);
                assert(kv_pred(entry)) by {
                    assert forall|jj: int| 0 <= jj < keys.deep_view().len() implies #[trigger]
                        keys.deep_view()[jj] != entry.0 by {
                        assert(keys.deep_view()[jj] == keys@[jj]@);
                    }
                }
                assert(done.push(entry).filter(kv_pred) =~= done.filter(kv_pred).push(entry));
                assert forall|jj: int|
                    0 <= jj < n_keys implies opt_elem_view(#[trigger] slots@[jj])
                    == spec_dict_get(done.push(entry), keys@[jj]@) by {
                    lemma_dict_get_push(done, entry, keys@[jj]@);
                    assert(entry.0 != keys@[jj]@);
                }
            }
            proof {
                lemma_view_dict_index(extras@);
            }
            extras.push((k, v));
            proof {
                lemma_view_dict_index(extras@);
                assert forall|s: int| 0 <= s < extras@.len() implies view_dict(extras@)[s]
                    == done.filter(kv_pred).push(entry)[s] by {
                    if s < extras@.len() - 1 {
                        assert(extras@[s] == extras@.drop_last()[s]);
                    }
                }
                assert(view_dict(extras@) =~= done.filter(kv_pred).push(entry));
                done = done.push(entry);
            }
        }
        t = t + 1;
    }
    proof {
        assert(done =~= full);
    }
    (slots, extras)
}

} // verus!

verus! {

use crate::strings::{hex_chars, hex_string, str_to_bytes};
use vstd::utf8::encode_utf8;

/// Peer information returned in a tracker response: its optional id,
/// the address it listens on, and unrecognized fields.
#[derive(Debug, PartialEq, Eq)]
pub struct Peer {
    pub id: Option<String>,
    pub addr: PeerAddr,
    pub extra_fields: Option<Dictionary>,
}

/// The mathematical value of a [`Peer`].
pub struct PeerView {
    pub id: Option<Seq<char>>,
    pub addr: PeerAddr,
    pub extra_fields: Option<Seq<(Seq<char>, BencodeValue)>>,
}

impl View for Peer {
    type V = PeerView;

    open spec fn view(&self) -> PeerView {
        PeerView {
            id: match self.id {
                None => None,
                Some(s) => Some(s@),
            },
            addr: self.addr,
            extra_fields: crate::torrent::view_opt_dict(self.extra_fields),
        }
    }
}

/// The values of a list of peers.
pub open spec fn view_peers(ps: Seq<Peer>) -> Seq<PeerView> {
    ps.map_values(|p: Peer| p@)
}

/// The low sixteen bits of a bencode integer, as a `u16` cast truncates
/// it.
pub open spec fn port_of(p: int) -> u16 {
    if p >= 0 {
        (p % 0x10000) as u16
    } else {
        (0xffff - ((-(p + 1)) % 0x10000)) as u16
    }
}

/// Truncate a reported port to sixteen bits.
pub fn truncate_port(p: i64) -> (r: u16)
    ensures
        r == port_of(p as int),
{
    if p >= 0 {
        (p % 0x10000) as u16
    } else {
        (0xffff - ((-(p + 1)) % 0x10000)) as u16
    }
}

/// The keys a peer dictionary is read for.
pub open spec fn peer_keys() -> Seq<Seq<char>> {
    seq!["peer id"@, "ip"@, "port"@]
}

/// The peer entries not read into a schema field.
pub open spec fn peer_extras(es: Seq<(Seq<char>, BencodeValue)>) -> Seq<(Seq<char>, BencodeValue)> {
    es.filter((|kv: (Seq<char>, BencodeValue)| !key_in(kv.0, peer_keys())))
}

/// Optional extras: absent when nothing is left.
pub open spec fn wrap_extras(es: Seq<(Seq<char>, BencodeValue)>) -> Option<
    Seq<(Seq<char>, BencodeValue)>,
> {
    if es.len() == 0 {
        None
    } else {
        Some(es)
    }
}

/// A peer as a dictionary describes it: `ip` (a v4 or v6 address
/// string) and `port` are required, `peer id` is optional and may be a
/// string or raw bytes (then written in hexadecimal), the rest is kept
/// as extras.
pub open spec fn spec_peer_from_dict(es: Seq<(Seq<char>, BencodeValue)>) -> Option<PeerView> {
    let id_ok: Option<Option<Seq<char>>> = match spec_dict_get(es, "peer id"@) {
        None => Some(None),
        Some(BencodeValue::String(s)) => Some(Some(s)),
        Some(BencodeValue::Bytes(b)) => Some(Some(hex_chars(b))),
        Some(_) => None,
    };
    match id_ok {
        None => None,
        Some(id) => match spec_dict_get(es, "ip"@) {
            Some(BencodeValue::String(ip)) => match spec_dict_get(es, "port"@) {
                Some(BencodeValue::Integer(p)) => match spec_parse_ip(encode_utf8(ip)) {
                    Some(ipv) => Some(
                        PeerView {
                            id,
                            addr: PeerAddr { ip: ipv, port: port_of(p) },
                            extra_fields: wrap_extras(peer_extras(es)),
                        },
                    ),
                    None => None,
                },
                _ => None,
            },
            _ => None,
        },
    }
}

/// The peer one compact six-byte record describes: four address bytes,
/// then the port in network order.
pub open spec fn spec_peer6(b: Seq<u8>) -> PeerView {
    PeerView {
        id: None,
        addr: PeerAddr {
            ip: PeerIp::V4(b[0], b[1], b[2], b[3]),
            port: (b[4] * 256 + b[5]) as u16,
        },
        extra_fields: None,
    }
}

/// Compact peers: six bytes each, exactly.
pub open spec fn spec_peers_from_bytes(b: Seq<u8>) -> Option<Seq<PeerView>> {
    if b.len() % 6 != 0 {
        None
    } else {
        Some(Seq::new(b.len() / 6, |i: int| spec_peer6(b.subrange(6 * i, 6 * i + 6))))
    }
}

/// Law: compact peer bytes of length `6k` yield exactly `k` peers, and
/// any other length is refused.
pub proof fn lemma_compact_peers_count(b: Seq<u8>)
    ensures
        b.len() % 6 == 0 ==> (spec_peers_from_bytes(b) matches Some(ps) && ps.len() == b.len()
            / 6),
        b.len() % 6 != 0 ==> spec_peers_from_bytes(b) is None,
{
}

/// Peers from a list of dictionaries.
pub open spec fn spec_peers_from_list(xs: Seq<BencodeValue>) -> Option<Seq<PeerView>>
    decreases xs,
{
    if xs.len() == 0 {
        Some(Seq::empty())
    } else {
        match xs[0] {
            BencodeValue::Dictionary(d) => match spec_peer_from_dict(d) {
                Some(p) => match spec_peers_from_list(xs.drop_first()) {
                    Some(ps) => Some(seq![p] + ps),
                    None => None,
                },
                None => None,
            },
            _ => None,
        }
    }
}

impl Peer {
    /// A peer from one compact six-byte record.
    pub fn from_bytes(bytes: &[u8]) -> (r: Peer)
        requires
            bytes@.len() == 6,
        ensures
            r@ == spec_peer6(bytes@),
    {
        let port: u16 = (bytes[4] as u16) * 256 + (bytes[5] as u16);
        Peer {
            id: None,
            addr: PeerAddr {
                ip: PeerIp::V4(bytes[0], bytes[1], bytes[2], bytes[3]),
                port,
            },
            extra_fields: None,
        }
    }

    /// A peer from a dictionary, as [`spec_peer_from_dict`] reads it.
    #[verifier::rlimit(60)]
    pub fn from_dict(dict: Dictionary) -> (r: Result<Peer, LavaError>)
        ensures
            r matches Ok(p) ==> spec_peer_from_dict(view_dict(dict@)) == Some(p@),
            r is Err ==> spec_peer_from_dict(view_dict(dict@)) is None && r->Err_0.kind
                == ErrorKind::MalformedResponse,
    {
        let ghost es = view_dict(dict@);
        let mut keys: Vec<String> = Vec::new();
        keys.push("peer id".to_owned());
        keys.push("ip".to_owned());
        keys.push("port".to_owned());
        proof {
            reveal_strlit("peer id");
            reveal_strlit("ip");
            reveal_strlit("port");
            assert(keys@.len() == 3);
            assert(keys@[0]@ == "peer id"@);
            assert(keys@[1]@ == "ip"@);
            assert(keys@[2]@ == "port"@);
            assert(keys.deep_view() =~= peer_keys());
        }
        let (mut slots, extras) = split_dict(dict, &keys);
        let ghost exec_pred = |kv: (Seq<char>, BencodeValue)| !key_in(kv.0, keys.deep_view());
        let ghost spec_pred = |kv: (Seq<char>, BencodeValue)| !key_in(kv.0, peer_keys());
        proof {
            assert(exec_pred =~= spec_pred);
            assert(view_dict(extras@) == peer_extras(es));
        }
        let s_id = slots.remove(0);
        let s_ip = slots.remove(0);
        let s_port = slots.remove(0);
        let id: Option<String> = match s_id {
            None => None,
            Some(BencodeElem::String(s)) => Some(s),
            Some(BencodeElem::Bytes(b)) => Some(hex_string(b.as_slice())),
            Some(_) => {
                return Err(
                    LavaError::new(
                        ErrorKind::MalformedResponse,
                        "`peer id` maps to neither a string nor raw bytes",
                    ),
                );
            },
        };
        let ip: String = match s_ip {
            Some(BencodeElem::String(s)) => s,
            Some(_) => {
                return Err(
                    LavaError::new(ErrorKind::MalformedResponse, "`ip` does not map to a string"),
                );
            },
            None => {
                return Err(
                    LavaError::new(ErrorKind::MalformedResponse, "`ip` does not exist"),
                );
            },
        };
        let port_int: i64 = match s_port {
            Some(BencodeElem::Integer(p)) => p,
            Some(_) => {
                return Err(
                    LavaError::new(
                        ErrorKind::MalformedResponse,
                        "`port` does not map to an integer",
                    ),
                );
            },
            None => {
                return Err(
                    LavaError::new(ErrorKind::MalformedResponse, "`port` does not exist"),
                );
            },
        };
        let ip_bytes = str_to_bytes(ip.as_str());
        let ipv = match parse_ip(ip_bytes.as_slice()) {
            Some(ipv) => ipv,
            None => {
                return Err(
                    LavaError::new(ErrorKind::MalformedResponse, "`ip` is invalid"),
                );
            },
        };
        let port = truncate_port(port_int);
        let extra_fields: Option<Dictionary> = if extras.len() == 0 {
            proof {
                crate::bencode::lemma_view_dict_index(extras@);
            }
            None
        } else {
            proof {
                crate::bencode::lemma_view_dict_index(extras@);
            }
            Some(extras)
        };
        Ok(Peer { id, addr: PeerAddr { ip: ipv, port }, extra_fields })
    }
}

} // verus!

verus! {

use crate::bencode::Integer;

/// Everything found in a tracker announce response.
#[derive(Debug, PartialEq, Eq)]
pub struct TrackerResponse {
    pub interval: Integer,
    pub peers: Vec<Peer>,
    pub warning: Option<String>,
    pub min_interval: Option<Integer>,
    pub tracker_id: Option<String>,
    pub complete: Option<Integer>,
    pub incomplete: Option<Integer>,
    pub extra_fields: Option<Dictionary>,
}

/// The mathematical value of a [`TrackerResponse`].
pub struct TrackerResponseView {
    pub interval: int,
    pub peers: Seq<PeerView>,
    pub warning: Option<Seq<char>>,
    pub min_interval: Option<int>,
    pub tracker_id: Option<Seq<char>>,
    pub complete: Option<int>,
    pub incomplete: Option<int>,
    pub extra_fields: Option<Seq<(Seq<char>, BencodeValue)>>,
}

/// View of an optional string.
pub open spec fn view_opt_string(s: Option<String>) -> Option<Seq<char>> {
    match s {
        None => None,
        Some(x) => Some(x@),
    }
}

/// View of an optional integer.
pub open spec fn view_opt_int(v: Option<Integer>) -> Option<int> {
    match v {
        None => None,
        Some(x) => Some(x as int),
    }
}

impl View for TrackerResponse {
    type V = TrackerResponseView;

    open spec fn view(&self) -> TrackerResponseView {
        TrackerResponseView {
            interval: self.interval as int,
            peers: view_peers(self.peers@),
            warning: view_opt_string(self.warning),
            min_interval: view_opt_int(self.min_interval),
            tracker_id: view_opt_string(self.tracker_id),
            complete: view_opt_int(self.complete),
            incomplete: view_opt_int(self.incomplete),
            extra_fields: crate::torrent::view_opt_dict(self.extra_fields),
        }
    }
}

/// The keys an announce response is read for.
pub open spec fn tracker_keys() -> Seq<Seq<char>> {
    seq![
        "failure reason"@,
        "interval"@,
        "peers"@,
        "warning"@,
        "min interval"@,
        "tracker id"@,
        "complete"@,
        "incomplete"@,
    ]
}

/// The response entries not read into a schema field.
pub open spec fn tracker_extras(es: Seq<(Seq<char>, BencodeValue)>) -> Seq<
    (Seq<char>, BencodeValue),
> {
    es.filter((|kv: (Seq<char>, BencodeValue)| !key_in(kv.0, tracker_keys())))
}

/// The peers field under each accepted shape: a list of dictionaries,
/// raw compact bytes, or a string read as its bytes.
pub open spec fn spec_peers_value(v: BencodeValue) -> Option<Seq<PeerView>> {
    match v {
        BencodeValue::List(xs) => spec_peers_from_list(xs),
        BencodeValue::Bytes(b) => spec_peers_from_bytes(b),
        BencodeValue::String(s) => spec_peers_from_bytes(encode_utf8(s)),
        _ => None,
    }
}

/// An optional string field: absent, present, or of the wrong shape.
pub open spec fn spec_opt_str(es: Seq<(Seq<char>, BencodeValue)>, k: Seq<char>) -> Option<
    Option<Seq<char>>,
> {
    match spec_dict_get(es, k) {
        None => Some(None),
        Some(BencodeValue::String(s)) => Some(Some(s)),
        Some(_) => None,
    }
}

/// An optional integer field: absent, present, or of the wrong shape.
pub open spec fn spec_opt_int(es: Seq<(Seq<char>, BencodeValue)>, k: Seq<char>) -> Option<
    Option<int>,
> {
    match spec_dict_get(es, k) {
        None => Some(None),
        Some(BencodeValue::Integer(i)) => Some(Some(i)),
        Some(_) => None,
    }
}

/// The fields of an announce response without a failure reason.
pub open spec fn spec_tracker_fields(es: Seq<(Seq<char>, BencodeValue)>) -> Option<
    TrackerResponseView,
> {
    match spec_dict_get(es, "interval"@) {
        Some(BencodeValue::Integer(iv)) => match spec_dict_get(es, "peers"@) {
            Some(pv) => match spec_peers_value(pv) {
                Some(peers) => match (
                    spec_opt_str(es, "warning"@),
                    spec_opt_int(es, "min interval"@),
                    spec_opt_str(es, "tracker id"@),
                    spec_opt_int(es, "complete"@),
                    spec_opt_int(es, "incomplete"@),
                ) {
                    (Some(w), Some(mi), Some(tid), Some(c), Some(inc)) => Some(
                        TrackerResponseView {
                            interval: iv,
                            peers,
                            warning: w,
                            min_interval: mi,
                            tracker_id: tid,
                            complete: c,
                            incomplete: inc,
                            extra_fields: wrap_extras(tracker_extras(es)),
                        },
                    ),
                    _ => None,
                },
                None => None,
            },
            None => None,
        },
        _ => None,
    }
}

/// What one top-level value means as an announce response: a response,
/// a failure the tracker reported, or nothing well-formed.
pub enum TrackerOutcome {
    Respond(TrackerResponseView),
    Failure(Seq<char>),
    Malformed,
}

pub open spec fn spec_tracker_outcome(v: BencodeValue) -> TrackerOutcome {
    match v {
        BencodeValue::Dictionary(es) => match spec_dict_get(es, "failure reason"@) {
            Some(BencodeValue::String(r)) => TrackerOutcome::Failure(r),
            Some(_) => TrackerOutcome::Malformed,
            None => match spec_tracker_fields(es) {
                Some(tv) => TrackerOutcome::Respond(tv),
                None => TrackerOutcome::Malformed,
            },
        },
        _ => TrackerOutcome::Malformed,
    }
}

/// Peers from a compact byte string, six bytes a peer.
#[verifier::loop_isolation(false)]
fn extract_peers_from_bytes(bytes: &[u8]) -> (r: Result<Vec<Peer>, LavaError>)
    ensures
        r matches Ok(ps) ==> spec_peers_from_bytes(bytes@) == Some(view_peers(ps@))
            && ps@.len() * 6 == bytes@.len(),
        r is Err ==> spec_peers_from_bytes(bytes@) is None && r->Err_0.kind
            == ErrorKind::MalformedResponse,
{
    let n: usize = bytes.len();
    if n % 6 != 0 {
        return Err(
            LavaError::new(
                ErrorKind::MalformedResponse,
                "compact `peers` contains an incorrect number of bytes",
            ),
        );
    }
    let count: usize = n / 6;
    let mut peers: Vec<Peer> = Vec::new();
    let mut i: usize = 0;
    while i < count
        invariant
            0 <= i <= count,
            n == bytes@.len(),
            n % 6 == 0,
            count == n / 6,
            peers@.len() == i,
            forall|t: int|
                0 <= t < i ==> (#[trigger] peers@[t])@ == spec_peer6(
                    bytes@.subrange(6 * t, 6 * t + 6),
                ),
        decreases count - i,
    {
        let ghost old_peers = peers@;
        let start: usize = i * 6;
        let chunk = crate::read::copy_range(bytes, start, 6);
        let p = Peer::from_bytes(chunk.as_slice());
        peers.push(p);
        proof {
            assert(6 * (i as int) == start as int);
            assert(peers@[i as int]@ == spec_peer6(bytes@.subrange(6 * (i as int), 6 * (i as int)
                + 6)));
        }
        i = i + 1;
    }
    proof {
        let sp = Seq::new(bytes@.len() / 6, |t: int| spec_peer6(bytes@.subrange(6 * t, 6 * t + 6)));
        assert(view_peers(peers@).len() == count);
        assert forall|t: int| 0 <= t < count implies view_peers(peers@)[t] == sp[t] by {
            assert(view_peers(peers@)[t] == peers@[t]@);
        }
        assert(view_peers(peers@) =~= sp);
    }
    Ok(peers)
}

/// Peers from a list of dictionaries.
#[verifier::loop_isolation(false)]
fn extract_peers_from_list(list: Vec<BencodeElem>) -> (r: Result<Vec<Peer>, LavaError>)
    ensures
        r matches Ok(ps) ==> spec_peers_from_list(view_list(list@)) == Some(view_peers(ps@)),
        r is Err ==> spec_peers_from_list(view_list(list@)) is None && r->Err_0.kind
            == ErrorKind::MalformedResponse,
{
    let ghost xs = view_list(list@);
    proof {
        crate::bencode::lemma_view_list_index(list@);
    }
    let mut rest = list;
    let ghost list0 = rest@;
    let mut peers: Vec<Peer> = Vec::new();
    let mut t: usize = 0;
    let n: usize = rest.len();
    proof {
        assert(rest@ =~= list0.skip(0));
        assert(xs.skip(0) =~= xs);
        assert(view_peers(peers@) =~= Seq::<PeerView>::empty());
        if spec_peers_from_list(xs) is Some {
            assert(view_peers(peers@) + spec_peers_from_list(xs)->0 =~= spec_peers_from_list(
                xs,
            )->0);
        }
    }
    while t < n
        invariant
            0 <= t <= n,
            n == list0.len(),
            t + rest@.len() == n,
            rest@ =~= list0.skip(t as int),
            xs == view_list(list0),
            xs.len() == n,
            forall|s: int| 0 <= s < n ==> #[trigger] xs[s] == crate::bencode::view_elem(list0[s]),
            peers@.len() == t,
            spec_peers_from_list(xs) == (match spec_peers_from_list(xs.skip(t as int)) {
                Some(ps) => Some(view_peers(peers@) + ps),
                None => None::<Seq<PeerView>>,
            }),
        decreases n - t,
    {
        let e = rest.remove(0);
        proof {
            assert(list0.skip(t as int)[0] == list0[t as int]);
            assert(rest@ =~= list0.skip(t + 1));
            assert(xs.skip(t as int)[0] == xs[t as int]);
            assert(xs.skip(t as int).drop_first() =~= xs.skip(t + 1));
        }
        let d = match e {
            BencodeElem::Dictionary(d) => d,
            _ => {
                return Err(
                    LavaError::new(
                        ErrorKind::MalformedResponse,
                        "`peers` contains a non-dictionary element",
                    ),
                );
            },
        };
        let p = match Peer::from_dict(d) {
            Ok(p) => p,
            Err(e2) => {
                return Err(e2);
            },
        };
        let ghost old_peers = peers@;
        peers.push(p);
        proof {
            assert(view_peers(peers@) =~= view_peers(old_peers).push(p@)) by {
                assert forall|s: int| 0 <= s < peers@.len() implies view_peers(peers@)[s]
                    == view_peers(old_peers).push(p@)[s] by {
                    assert(view_peers(peers@)[s] == peers@[s]@);
                    if s < old_peers.len() {
                        assert(peers@[s] == old_peers[s]);
                        assert(view_peers(old_peers)[s] == old_peers[s]@);
                    }
                }
            }
            let r2 = spec_peers_from_list(xs.skip(t + 1));
            if r2 is Some {
                assert(view_peers(old_peers) + (seq![p@] + r2->0) =~= (view_peers(old_peers).push(
                    p@,
                )) + r2->0);
            }
        }
        t = t + 1;
    }
    proof {
        assert(xs.skip(n as int) =~= Seq::<BencodeValue>::empty());
        assert(spec_peers_from_list(Seq::<BencodeValue>::empty()) == Some(
            Seq::<PeerView>::empty(),
        ));
        assert(view_peers(peers@) + Seq::<PeerView>::empty() =~= view_peers(peers@));
    }
    Ok(peers)
}

} // verus!

verus! {

use crate::read::spec_parse_stream;

impl TrackerResponse {
    /// Parse a tracker announce response.  The stream must hold exactly
    /// one dictionary; a `failure reason` in it is reported as
    /// [`ErrorKind::TrackerErrorResponse`] carrying the reason; else the
    /// fields are read as [`spec_tracker_outcome`] lays down.
    #[verifier::loop_isolation(false)]
    #[verifier::rlimit(100)]
    pub fn from_bytes(bytes: &[u8]) -> (r: Result<TrackerResponse, LavaError>)
        ensures
            spec_parse_stream(bytes@, 0) is None ==> r is Err && r->Err_0.kind
                == ErrorKind::MalformedBencode,
            spec_parse_stream(bytes@, 0) matches Some(vs) ==> ((vs.len() != 1 ==> r is Err
                && r->Err_0.kind == ErrorKind::MalformedResponse) && (vs.len() == 1 ==> (match
            spec_tracker_outcome(vs[0]) {
                TrackerOutcome::Respond(tv) => r matches Ok(t) && t@ == tv,
                TrackerOutcome::Failure(reason) => r matches Err(e) && e.kind
                    == ErrorKind::TrackerErrorResponse && e.msg@ == reason,
                TrackerOutcome::Malformed => r matches Err(e) && e.kind
                    == ErrorKind::MalformedResponse,
            }))),
    {
        let mut parsed = match BencodeElem::from_bytes(bytes) {
            Ok(v) => v,
            Err(e) => {
                return Err(e);
            },
        };
        proof {
            crate::bencode::lemma_view_list_index(parsed@);
        }
        if parsed.len() != 1 {
            return Err(
                LavaError::new(
                    ErrorKind::MalformedResponse,
                    "a tracker response should contain exactly one top-level element",
                ),
            );
        }
        let elem = parsed.remove(0);
        let ghost v0 = crate::bencode::view_elem(elem);
        let es = match elem {
            BencodeElem::Dictionary(es) => es,
            _ => {
                return Err(
                    LavaError::new(
                        ErrorKind::MalformedResponse,
                        "the tracker response is not a dictionary",
                    ),
                );
            },
        };
        let ghost es0 = view_dict(es@);
        let mut keys: Vec<String> = Vec::new();
        keys.push("failure reason".to_owned());
        keys.push("interval".to_owned());
        keys.push("peers".to_owned());
        keys.push("warning".to_owned());
        keys.push("min interval".to_owned());
        keys.push("tracker id".to_owned());
        keys.push("complete".to_owned());
        keys.push("incomplete".to_owned());
        proof {
            reveal_strlit("failure reason");
            reveal_strlit("interval");
            reveal_strlit("peers");
            reveal_strlit("warning");
            reveal_strlit("min interval");
            reveal_strlit("tracker id");
            reveal_strlit("complete");
            reveal_strlit("incomplete");
            assert(keys@.len() == 8);
            assert(keys@[0]@ == "failure reason"@);
            assert(keys@[1]@ == "interval"@);
            assert(keys@[2]@ == "peers"@);
            assert(keys@[3]@ == "warning"@);
            assert(keys@[4]@ == "min interval"@);
            assert(keys@[5]@ == "tracker id"@);
            assert(keys@[6]@ == "complete"@);
            assert(keys@[7]@ == "incomplete"@);
            assert(keys.deep_view() =~= tracker_keys());
            assert forall|a: int, b: int| 0 <= a < b < keys@.len() implies (#[trigger] keys@[a])@
                != (#[trigger] keys@[b])@ by {
                if keys@[a]@.len() == keys@[b]@.len() {
                    assert(keys@[a]@[0] != keys@[b]@[0]);
                }
            }
        }
        let (mut slots, extras) = split_dict(es, &keys);
        let ghost exec_pred = |kv: (Seq<char>, BencodeValue)| !key_in(kv.0, keys.deep_view());
        let ghost spec_pred = |kv: (Seq<char>, BencodeValue)| !key_in(kv.0, tracker_keys());
        proof {
            assert(exec_pred =~= spec_pred);
            assert(view_dict(extras@) == tracker_extras(es0));
        }
        let s_fail = slots.remove(0);
        let s_interval = slots.remove(0);
        let s_peers = slots.remove(0);
        let s_warning = slots.remove(0);
        let s_min = slots.remove(0);
        let s_tid = slots.remove(0);
        let s_complete = slots.remove(0);
        let s_incomplete = slots.remove(0);
        match s_fail {
            Some(BencodeElem::String(reason)) => {
                return Err(LavaError { kind: ErrorKind::TrackerErrorResponse, msg: reason });
            },
            Some(_) => {
                return Err(
                    LavaError::new(
                        ErrorKind::MalformedResponse,
                        "`failure reason` does not map to a string",
                    ),
                );
            },
            None => {},
        }
        let interval: i64 = match s_interval {
            Some(BencodeElem::Integer(i)) => i,
            Some(_) => {
                return Err(
                    LavaError::new(
                        ErrorKind::MalformedResponse,
                        "`interval` does not map to an integer",
                    ),
                );
            },
            None => {
                return Err(
                    LavaError::new(ErrorKind::MalformedResponse, "`interval` does not exist"),
                );
            },
        };
        let peers: Vec<Peer> = match s_peers {
            Some(BencodeElem::List(xs)) => {
                match extract_peers_from_list(xs) {
                    Ok(ps) => ps,
                    Err(e) => {
                        return Err(e);
                    },
                }
            },
            Some(BencodeElem::Bytes(b)) => {
                match extract_peers_from_bytes(b.as_slice()) {
                    Ok(ps) => ps,
                    Err(e) => {
                        return Err(e);
                    },
                }
            },
            Some(BencodeElem::String(st)) => {
                let bb = str_to_bytes(st.as_str());
                match extract_peers_from_bytes(bb.as_slice()) {
                    Ok(ps) => ps,
                    Err(e) => {
                        return Err(e);
                    },
                }
            },
            Some(_) => {
                return Err(
                    LavaError::new(
                        ErrorKind::MalformedResponse,
                        "`peers` does not map to a list or a string of bytes",
                    ),
                );
            },
            None => {
                return Err(
                    LavaError::new(ErrorKind::MalformedResponse, "`peers` does not exist"),
                );
            },
        };
        let warning: Option<String> = match s_warning {
            Some(BencodeElem::String(s)) => Some(s),
            Some(_) => {
                return Err(
                    LavaError::new(
                        ErrorKind::MalformedResponse,
                        "`warning` does not map to a string",
                    ),
                );
            },
            None => None,
        };
        let min_interval: Option<i64> = match s_min {
            Some(BencodeElem::Integer(i)) => Some(i),
            Some(_) => {
                return Err(
                    LavaError::new(
                        ErrorKind::MalformedResponse,
                        "`min interval` does not map to an integer",
                    ),
                );
            },
            None => None,
        };
        let tracker_id: Option<String> = match s_tid {
            Some(BencodeElem::String(s)) => Some(s),
            Some(_) => {
                return Err(
                    LavaError::new(
                        ErrorKind::MalformedResponse,
                        "`tracker id` does not map to a string",
                    ),
                );
            },
            None => None,
        };
        let complete: Option<i64> = match s_complete {
            Some(BencodeElem::Integer(i)) => Some(i),
            Some(_) => {
                return Err(
                    LavaError::new(
                        ErrorKind::MalformedResponse,
                        "`complete` does not map to an integer",
                    ),
                );
            },
            None => None,
        };
        let incomplete: Option<i64> = match s_incomplete {
            Some(BencodeElem::Integer(i)) => Some(i),
            Some(_) => {
                return Err(
                    LavaError::new(
                        ErrorKind::MalformedResponse,
                        "`incomplete` does not map to an integer",
                    ),
                );
            },
            None => None,
        };
        proof {
            crate::bencode::lemma_view_dict_index(extras@);
        }
        let extra_fields: Option<Dictionary> = if extras.len() == 0 {
            None
        } else {
            Some(extras)
        };
        let out = TrackerResponse {
            interval,
            peers,
            warning,
            min_interval,
            tracker_id,
            complete,
            incomplete,
            extra_fields,
        };
        proof {
            let tv = spec_tracker_fields(es0);
            assert(tv is Some);
            assert(out@ == tv->0);
        }
        Ok(out)
    }
}

} // verus!

verus! {

/// Swarm statistics returned in a scrape response.
#[derive(Debug, PartialEq, Eq)]
pub struct SwarmMetadata {
    pub complete: Integer,
    pub incomplete: Integer,
    pub downloaded: Integer,
    pub extra_fields: Option<Dictionary>,
}

/// The mathematical value of a [`SwarmMetadata`].
pub struct SwarmMetadataView {
    pub complete: int,
    pub incomplete: int,
    pub downloaded: int,
    pub extra_fields: Option<Seq<(Seq<char>, BencodeValue)>>,
}

impl View for SwarmMetadata {
    type V = SwarmMetadataView;

    open spec fn view(&self) -> SwarmMetadataView {
        SwarmMetadataView {
            complete: self.complete as int,
            incomplete: self.incomplete as int,
            downloaded: self.downloaded as int,
            extra_fields: crate::torrent::view_opt_dict(self.extra_fields),
        }
    }
}

/// The keys a swarm dictionary is read for.
pub open spec fn swarm_keys() -> Seq<Seq<char>> {
    seq!["complete"@, "incomplete"@, "downloaded"@]
}

/// The swarm entries not read into a schema field.
pub open spec fn swarm_extras(es: Seq<(Seq<char>, BencodeValue)>) -> Seq<
    (Seq<char>, BencodeValue),
> {
    es.filter((|kv: (Seq<char>, BencodeValue)| !key_in(kv.0, swarm_keys())))
}

/// Swarm statistics as a dictionary describes them: `complete`,
/// `incomplete` and `downloaded` are required integers.
pub open spec fn spec_swarm_from_dict(es: Seq<(Seq<char>, BencodeValue)>) -> Option<
    SwarmMetadataView,
> {
    match (
        spec_dict_get(es, "complete"@),
        spec_dict_get(es, "incomplete"@),
        spec_dict_get(es, "downloaded"@),
    ) {
        (
            Some(BencodeValue::Integer(c)),
            Some(BencodeValue::Integer(i)),
            Some(BencodeValue::Integer(d)),
        ) => Some(
            SwarmMetadataView {
                complete: c,
                incomplete: i,
                downloaded: d,
                extra_fields: wrap_extras(swarm_extras(es)),
            },
        ),
        _ => None,
    }
}

impl SwarmMetadata {
    /// Swarm statistics from a dictionary, as [`spec_swarm_from_dict`]
    /// reads them.
    pub fn from_dict(dict: Dictionary) -> (r: Result<SwarmMetadata, LavaError>)
        ensures
            r matches Ok(m) ==> spec_swarm_from_dict(view_dict(dict@)) == Some(m@),
            r is Err ==> spec_swarm_from_dict(view_dict(dict@)) is None && r->Err_0.kind
                == ErrorKind::MalformedResponse,
    {
        let ghost es = view_dict(dict@);
        let mut keys: Vec<String> = Vec::new();
        keys.push("complete".to_owned());
        keys.push("incomplete".to_owned());
        keys.push("downloaded".to_owned());
        proof {
            reveal_strlit("complete");
            reveal_strlit("incomplete");
            reveal_strlit("downloaded");
            assert(keys@.len() == 3);
            assert(keys@[0]@ == "complete"@);
            assert(keys@[1]@ == "incomplete"@);
            assert(keys@[2]@ == "downloaded"@);
            assert(keys.deep_view() =~= swarm_keys());
            assert forall|a: int, b: int| 0 <= a < b < keys@.len() implies (#[trigger] keys@[a])@
                != (#[trigger] keys@[b])@ by {
                if keys@[a]@.len() == keys@[b]@.len() {
                    assert(keys@[a]@[0] != keys@[b]@[0]);
                }
            }
        }
        let (mut slots, extras) = split_dict(dict, &keys);
        let ghost exec_pred = |kv: (Seq<char>, BencodeValue)| !key_in(kv.0, keys.deep_view());
        let ghost spec_pred = |kv: (Seq<char>, BencodeValue)| !key_in(kv.0, swarm_keys());
        proof {
            assert(exec_pred =~= spec_pred);
            assert(view_dict(extras@) == swarm_extras(es));
            crate::bencode::lemma_view_dict_index(extras@);
        }
        let s_complete = slots.remove(0);
        let s_incomplete = slots.remove(0);
        let s_downloaded = slots.remove(0);
        let complete: i64 = match s_complete {
            Some(BencodeElem::Integer(i)) => i,
            _ => {
                return Err(
                    LavaError::new(
                        ErrorKind::MalformedResponse,
                        "`complete` is missing or does not map to an integer",
                    ),
                );
            },
        };
        let incomplete: i64 = match s_incomplete {
            Some(BencodeElem::Integer(i)) => i,
            _ => {
                return Err(
                    LavaError::new(
                        ErrorKind::MalformedResponse,
                        "`incomplete` is missing or does not map to an integer",
                    ),
                );
            },
        };
        let downloaded: i64 = match s_downloaded {
            Some(BencodeElem::Integer(i)) => i,
            _ => {
                return Err(
                    LavaError::new(
                        ErrorKind::MalformedResponse,
                        "`downloaded` is missing or does not map to an integer",
                    ),
                );
            },
        };
        let extra_fields: Option<Dictionary> = if extras.len() == 0 {
            None
        } else {
            Some(extras)
        };
        Ok(SwarmMetadata { complete, incomplete, downloaded, extra_fields })
    }
}

/// Everything found in a tracker scrape response: swarm statistics for
/// each info hash, in the order the response listed them, and
/// unrecognized fields.
#[derive(Debug, PartialEq, Eq)]
pub struct TrackerScrapeResponse {
    pub files: Vec<(Vec<u8>, SwarmMetadata)>,
    pub extra_fields: Option<Dictionary>,
}

/// The mathematical value of a [`TrackerScrapeResponse`].
pub struct TrackerScrapeResponseView {
    pub files: Seq<(Seq<u8>, SwarmMetadataView)>,
    pub extra_fields: Option<Seq<(Seq<char>, BencodeValue)>>,
}

/// The values of a scrape file table.
pub open spec fn view_swarm_files(fs: Seq<(Vec<u8>, SwarmMetadata)>) -> Seq<
    (Seq<u8>, SwarmMetadataView),
> {
    fs.map_values(|e: (Vec<u8>, SwarmMetadata)| (e.0@, e.1@))
}

impl View for TrackerScrapeResponse {
    type V = TrackerScrapeResponseView;

    open spec fn view(&self) -> TrackerScrapeResponseView {
        TrackerScrapeResponseView {
            files: view_swarm_files(self.files@),
            extra_fields: crate::torrent::view_opt_dict(self.extra_fields),
        }
    }
}

/// The file table of a scrape response: each raw info-hash key maps to a
/// swarm dictionary.
pub open spec fn spec_scrape_files(fs: Seq<(Seq<u8>, BencodeValue)>) -> Option<
    Seq<(Seq<u8>, SwarmMetadataView)>,
>
    decreases fs,
{
    if fs.len() == 0 {
        Some(Seq::empty())
    } else {
        match fs[0].1 {
            BencodeValue::Dictionary(d) => match spec_swarm_from_dict(d) {
                Some(m) => match spec_scrape_files(fs.drop_first()) {
                    Some(rest) => Some(seq![(fs[0].0, m)] + rest),
                    None => None,
                },
                None => None,
            },
            _ => None,
        }
    }
}

/// The scrape response entries other than `files`.
pub open spec fn scrape_extras(es: Seq<(Seq<char>, BencodeValue)>) -> Seq<
    (Seq<char>, BencodeValue),
> {
    es.filter((|kv: (Seq<char>, BencodeValue)| !key_in(kv.0, seq!["files"@])))
}

/// What one top-level value means as a scrape response.
pub open spec fn spec_scrape_outcome(v: BencodeValue) -> Option<TrackerScrapeResponseView> {
    match v {
        BencodeValue::Dictionary(es) => match spec_dict_get(es, "files"@) {
            Some(BencodeValue::RawDictionary(fs)) => match spec_scrape_files(fs) {
                Some(files) => Some(
                    TrackerScrapeResponseView {
                        files,
                        extra_fields: wrap_extras(scrape_extras(es)),
                    },
                ),
                None => None,
            },
            _ => None,
        },
        _ => None,
    }
}

impl TrackerScrapeResponse {
    /// Parse a tracker scrape response.  The stream must hold exactly
    /// one dictionary, whose `files` key maps to a dictionary of raw
    /// info-hash keys; the fields are read as [`spec_scrape_outcome`]
    /// lays down.
    #[verifier::loop_isolation(false)]
    #[verifier::rlimit(60)]
    pub fn from_bytes(bytes: &[u8]) -> (r: Result<TrackerScrapeResponse, LavaError>)
        ensures
            spec_parse_stream(bytes@, 0) is None ==> r is Err && r->Err_0.kind
                == ErrorKind::MalformedBencode,
            spec_parse_stream(bytes@, 0) matches Some(vs) ==> ((vs.len() != 1 ==> r is Err
                && r->Err_0.kind == ErrorKind::MalformedResponse) && (vs.len() == 1 ==> (match
            spec_scrape_outcome(vs[0]) {
                Some(sv) => r matches Ok(t) && t@ == sv,
                None => r matches Err(e) && e.kind == ErrorKind::MalformedResponse,
            }))),
    {
        let mut parsed = match BencodeElem::from_bytes(bytes) {
            Ok(v) => v,
            Err(e) => {
                return Err(e);
            },
        };
        proof {
            crate::bencode::lemma_view_list_index(parsed@);
        }
        if parsed.len() != 1 {
            return Err(
                LavaError::new(
                    ErrorKind::MalformedResponse,
                    "a tracker scrape response should contain exactly one top-level element",
                ),
            );
        }
        let elem = parsed.remove(0);
        let ghost v0 = crate::bencode::view_elem(elem);
        let es = match elem {
            BencodeElem::Dictionary(es) => es,
            _ => {
                return Err(
                    LavaError::new(
                        ErrorKind::MalformedResponse,
                        "the tracker scrape response is not a dictionary",
                    ),
                );
            },
        };
        let ghost es0 = view_dict(es@);
        let mut keys: Vec<String> = Vec::new();
        keys.push("files".to_owned());
        proof {
            reveal_strlit("files");
            assert(keys@.len() == 1);
            assert(keys@[0]@ == "files"@);
            assert(keys.deep_view() =~= seq!["files"@]);
        }
        let (mut slots, extras) = split_dict(es, &keys);
        let ghost exec_pred = |kv: (Seq<char>, BencodeValue)| !key_in(kv.0, keys.deep_view());
        let ghost spec_pred = |kv: (Seq<char>, BencodeValue)| !key_in(kv.0, seq!["files"@]);
        proof {
            assert(exec_pred =~= spec_pred);
            assert(view_dict(extras@) == scrape_extras(es0));
            crate::bencode::lemma_view_dict_index(extras@);
        }
        let s_files = slots.remove(0);
        let raw = match s_files {
            Some(BencodeElem::RawDictionary(fs)) => fs,
            Some(_) => {
                return Err(
                    LavaError::new(
                        ErrorKind::MalformedResponse,
                        "`files` does not map to a dictionary with raw keys",
                    ),
                );
            },
            None => {
                return Err(
                    LavaError::new(ErrorKind::MalformedResponse, "`files` does not exist"),
                );
            },
        };
        let ghost fs0 = view_raw_dict(raw@);
        proof {
            crate::bencode::lemma_view_raw_dict_index(raw@);
        }
        let mut rest = raw;
        let ghost raw0 = rest@;
        let mut files: Vec<(Vec<u8>, SwarmMetadata)> = Vec::new();
        let n: usize = rest.len();
        let mut t: usize = 0;
        proof {
            assert(rest@ =~= raw0.skip(0));
            assert(fs0.skip(0) =~= fs0);
            assert(view_swarm_files(files@) =~= Seq::<(Seq<u8>, SwarmMetadataView)>::empty());
            if spec_scrape_files(fs0) is Some {
                assert(view_swarm_files(files@) + spec_scrape_files(fs0)->0
                    =~= spec_scrape_files(fs0)->0);
            }
        }
        while t < n
            invariant
                0 <= t <= n,
                n == raw0.len(),
                t + rest@.len() == n,
                rest@ =~= raw0.skip(t as int),
                fs0 == view_raw_dict(raw0),
                fs0.len() == n,
                forall|s: int|
                    0 <= s < n ==> #[trigger] fs0[s] == (
                        raw0[s].0@,
                        crate::bencode::view_elem(raw0[s].1),
                    ),
                files@.len() == t,
                spec_scrape_files(fs0) == (match spec_scrape_files(fs0.skip(t as int)) {
                    Some(rest2) => Some(view_swarm_files(files@) + rest2),
                    None => None::<Seq<(Seq<u8>, SwarmMetadataView)>>,
                }),
            decreases n - t,
        {
            let (key, v) = rest.remove(0);
            proof {
                assert(raw0.skip(t as int)[0] == raw0[t as int]);
                assert(rest@ =~= raw0.skip(t + 1));
                assert(fs0.skip(t as int)[0] == fs0[t as int]);
                assert(fs0.skip(t as int).drop_first() =~= fs0.skip(t + 1));
            }
            let d = match v {
                BencodeElem::Dictionary(d) => d,
                _ => {
                    return Err(
                        LavaError::new(
                            ErrorKind::MalformedResponse,
                            "a swarm entry is not a dictionary",
                        ),
                    );
                },
            };
            let m = match SwarmMetadata::from_dict(d) {
                Ok(m) => m,
                Err(e2) => {
                    return Err(e2);
                },
            };
            let ghost old_files = files@;
            files.push((key, m));
            proof {
                assert(view_swarm_files(files@) =~= view_swarm_files(old_files).push(
                    (fs0[t as int].0, m@),
                )) by {
                    assert forall|s: int| 0 <= s < files@.len() implies view_swarm_files(
                        files@,
                    )[s] == view_swarm_files(old_files).push((fs0[t as int].0, m@))[s] by {
                        assert(view_swarm_files(files@)[s] == (files@[s].0@, files@[s].1@));
                        if s < old_files.len() {
                            assert(files@[s] == old_files[s]);
                            assert(view_swarm_files(old_files)[s] == (
                                old_files[s].0@,
                                old_files[s].1@,
                            ));
                        }
                    }
                }
                let r2 = spec_scrape_files(fs0.skip(t + 1));
                if r2 is Some {
                    assert(view_swarm_files(old_files) + (seq![(fs0[t as int].0, m@)] + r2->0)
                        =~= (view_swarm_files(old_files).push((fs0[t as int].0, m@))) + r2->0);
                }
            }
            t = t + 1;
        }
        proof {
            assert(fs0.skip(n as int) =~= Seq::<(Seq<u8>, BencodeValue)>::empty());
            assert(spec_scrape_files(Seq::<(Seq<u8>, BencodeValue)>::empty()) == Some(
                Seq::<(Seq<u8>, SwarmMetadataView)>::empty(),
            ));
            assert(view_swarm_files(files@) + Seq::<(Seq<u8>, SwarmMetadataView)>::empty()
                =~= view_swarm_files(files@));
        }
        let extra_fields: Option<Dictionary> = if extras.len() == 0 {
            None
        } else {
            Some(extras)
        };
        Ok(TrackerScrapeResponse { files, extra_fields })
    }
}

} // verus!
