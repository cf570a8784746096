use vstd::prelude::*;

verus! {

use crate::bencode::{BencodeElem, BencodeValue, view_dict};

/// A dictionary as the torrent layer passes it around: sorted entries
/// with UTF-8 keys.
pub type Dictionary = Vec<(String, BencodeElem)>;

/// Tiers of tracker URLs.
pub type AnnounceList = Vec<Vec<String>>;

/// Bytes in one SHA-1 digest, the length of every piece entry.
pub const PIECE_STRING_LENGTH: usize = 20;

/// A file entry of a multi-file torrent: its byte length and its path
/// below the torrent root, one component per element.
#[derive(Debug, PartialEq, Eq)]
pub struct File {
    pub length: i64,
    pub path: Vec<String>,
    pub extra_fields: Option<Dictionary>,
}

/// A torrent's metainfo.
#[derive(Debug, PartialEq, Eq)]
pub struct Torrent {
    pub announce: String,
    pub announce_list: Option<AnnounceList>,
    pub length: i64,
    pub files: Option<Vec<File>>,
    pub name: String,
    pub piece_length: i64,
    pub pieces: Vec<Vec<u8>>,
    pub extra_fields: Option<Dictionary>,
    pub extra_info_fields: Option<Dictionary>,
}

/// The mathematical value of a [`File`].
pub struct FileView {
    pub length: int,
    pub path: Seq<Seq<char>>,
    pub extra_fields: Option<Seq<(Seq<char>, BencodeValue)>>,
}

/// The mathematical value of a [`Torrent`].
pub struct TorrentView {
    pub announce: Seq<char>,
    pub announce_list: Option<Seq<Seq<Seq<char>>>>,
    pub length: int,
    pub files: Option<Seq<FileView>>,
    pub name: Seq<char>,
    pub piece_length: int,
    pub pieces: Seq<Seq<u8>>,
    pub extra_fields: Option<Seq<(Seq<char>, BencodeValue)>>,
    pub extra_info_fields: Option<Seq<(Seq<char>, BencodeValue)>>,
}

/// View of an optional dictionary.
pub open spec fn view_opt_dict(d: Option<Dictionary>) -> Option<Seq<(Seq<char>, BencodeValue)>> {
    match d {
        None => None,
        Some(es) => Some(view_dict(es@)),
    }
}

/// View of an announce list: tiers of URL character sequences.
pub open spec fn view_announce_list(al: AnnounceList) -> Seq<Seq<Seq<char>>> {
    al.deep_view()
}

impl View for File {
    type V = FileView;

    open spec fn view(&self) -> FileView {
        FileView {
            length: self.length as int,
            path: self.path.deep_view(),
            extra_fields: view_opt_dict(self.extra_fields),
        }
    }
}

pub open spec fn view_files(fs: Seq<File>) -> Seq<FileView> {
    fs.map_values(|f: File| f@)
}

impl View for Torrent {
    type V = TorrentView;

    open spec fn view(&self) -> TorrentView {
        TorrentView {
            announce: self.announce@,
            announce_list: match self.announce_list {
                None => None,
                Some(al) => Some(view_announce_list(al)),
            },
            length: self.length as int,
            files: match self.files {
                None => None,
                Some(fs) => Some(view_files(fs@)),
            },
            name: self.name@,
            piece_length: self.piece_length as int,
            pieces: self.pieces.deep_view(),
            extra_fields: view_opt_dict(self.extra_fields),
            extra_info_fields: view_opt_dict(self.extra_info_fields),
        }
    }
}

} // verus!

verus! {

use crate::bencode::{spec_dict_insert, dict_insert, encoded, view_list,
    lemma_view_list_index, view_elem};
use crate::hash::{concat_all, sha1_of, sha1_digest, lemma_concat_all_take};

/// Entries written into a dictionary one after the other; a repeated
/// key keeps the later value.
pub open spec fn spec_insert_all(
    es: Seq<(Seq<char>, BencodeValue)>,
    xs: Seq<(Seq<char>, BencodeValue)>,
) -> Seq<(Seq<char>, BencodeValue)>
    decreases xs.len(),
{
    if xs.len() == 0 {
        es
    } else {
        spec_insert_all(spec_dict_insert(es, xs[0].0, xs[0].1), xs.drop_first())
    }
}

/// The entries of an optional dictionary, empty when absent.
pub open spec fn opt_or_empty(d: Option<Seq<(Seq<char>, BencodeValue)>>) -> Seq<
    (Seq<char>, BencodeValue),
> {
    match d {
        None => Seq::empty(),
        Some(es) => es,
    }
}

/// The dictionary a file entry serializes to: its `length`, its `path`
/// as a list of component strings, then its extras.
pub open spec fn spec_file_value(f: FileView) -> BencodeValue {
    let e0 = spec_dict_insert(Seq::empty(), "length"@, BencodeValue::Integer(f.length));
    let e1 = spec_dict_insert(
        e0,
        "path"@,
        BencodeValue::List(f.path.map_values(|c: Seq<char>| BencodeValue::String(c))),
    );
    BencodeValue::Dictionary(spec_insert_all(e1, opt_or_empty(f.extra_fields)))
}

/// The `info` dictionary: `name`, `piece length`, `pieces` as one byte
/// string, `length` or `files` by mode, then the `info` extras.
pub open spec fn spec_info_entries(t: TorrentView) -> Seq<(Seq<char>, BencodeValue)> {
    let e0 = spec_dict_insert(Seq::empty(), "name"@, BencodeValue::String(t.name));
    let e1 = spec_dict_insert(e0, "piece length"@, BencodeValue::Integer(t.piece_length));
    let e2 = spec_dict_insert(e1, "pieces"@, BencodeValue::Bytes(concat_all(t.pieces)));
    let e3 = match t.files {
        None => spec_dict_insert(e2, "length"@, BencodeValue::Integer(t.length)),
        Some(fs) => spec_dict_insert(
            e2,
            "files"@,
            BencodeValue::List(fs.map_values(|f: FileView| spec_file_value(f))),
        ),
    };
    spec_insert_all(e3, opt_or_empty(t.extra_info_fields))
}

/// The `info` dictionary as a value; its encoding is hashed for the
/// torrent's identity.
pub open spec fn spec_info_value(t: TorrentView) -> BencodeValue {
    BencodeValue::Dictionary(spec_info_entries(t))
}

/// A tier list as a value: a list of lists of URL strings.
pub open spec fn spec_announce_list_value(al: Seq<Seq<Seq<char>>>) -> BencodeValue {
    BencodeValue::List(
        al.map_values(
            |tier: Seq<Seq<char>>|
                BencodeValue::List(
                    tier.map_values(|u: Seq<char>| BencodeValue::String(u)),
                ),
        ),
    )
}

/// The root dictionary: `announce`, the optional `announce-list`, the
/// `info` dictionary, then the root extras.
pub open spec fn spec_root_entries(t: TorrentView) -> Seq<(Seq<char>, BencodeValue)> {
    let e0 = spec_dict_insert(Seq::empty(), "announce"@, BencodeValue::String(t.announce));
    let e1 = match t.announce_list {
        None => e0,
        Some(al) => spec_dict_insert(e0, "announce-list"@, spec_announce_list_value(al)),
    };
    let e2 = spec_dict_insert(e1, "info"@, spec_info_value(t));
    spec_insert_all(e2, opt_or_empty(t.extra_fields))
}

/// The whole torrent as one bencode value.
pub open spec fn spec_root_value(t: TorrentView) -> BencodeValue {
    BencodeValue::Dictionary(spec_root_entries(t))
}

/// Write each entry of `extras` into `es` in turn.
#[verifier::loop_isolation(false)]
fn insert_all(es: &mut Dictionary, extras: &Dictionary)
    ensures
        view_dict(final(es)@) == spec_insert_all(view_dict(old(es)@), view_dict(extras@)),
{
    let ghost xs = view_dict(extras@);
    proof {
        crate::bencode::lemma_view_dict_index(extras@);
        assert(xs.skip(0) =~= xs);
    }
    let n: usize = extras.len();
    let mut k: usize = 0;
    while k < n
        invariant
            0 <= k <= n,
            n == extras@.len(),
            spec_insert_all(view_dict(old(es)@), xs) == spec_insert_all(
                view_dict(es@),
                xs.skip(k as int),
            ),
        decreases n - k,
    {
        let pair = &extras[k];
        proof {
            assert(xs.skip(k as int)[0] == xs[k as int]);
            assert(xs.skip(k as int).drop_first() =~= xs.skip(k + 1));
            assert(xs[k as int] == (pair.0@, view_elem(pair.1)));
        }
        let key = pair.0.clone();
        let val = pair.1.deep_clone();
        dict_insert(es, key, val);
        k = k + 1;
    }
    proof {
        assert(xs.skip(n as int) =~= Seq::<(Seq<char>, BencodeValue)>::empty());
    }
}

/// The dictionary element a file entry serializes to.
#[verifier::loop_isolation(false)]
fn construct_file_elem(f: &File) -> (r: BencodeElem)
    ensures
        r@ == spec_file_value(f@),
{
    let mut es: Dictionary = Vec::new();
    proof {
        assert(view_dict(es@) =~= Seq::<(Seq<char>, BencodeValue)>::empty());
    }
    dict_insert(&mut es, "length".to_owned(), BencodeElem::Integer(f.length));
    let mut path_elems: Vec<BencodeElem> = Vec::new();
    let n: usize = f.path.len();
    let mut k: usize = 0;
    let ghost pv = f.path.deep_view();
    while k < n
        invariant
            0 <= k <= n,
            n == f.path@.len(),
            pv == f.path.deep_view(),
            path_elems@.len() == k,
            forall|t: int|
                0 <= t < k ==> view_elem(#[trigger] path_elems@[t]) == BencodeValue::String(
                    pv[t],
                ),
        decreases n - k,
    {
        proof {
            assert(pv[k as int] == f.path@[k as int]@);
        }
        path_elems.push(BencodeElem::String(f.path[k].clone()));
        k = k + 1;
    }
    proof {
        lemma_view_list_index(path_elems@);
        assert(view_list(path_elems@) =~= pv.map_values(
            |c: Seq<char>| BencodeValue::String(c),
        ));
    }
    dict_insert(&mut es, "path".to_owned(), BencodeElem::List(path_elems));
    match &f.extra_fields {
        None => {},
        Some(extras) => {
            insert_all(&mut es, extras);
        },
    }
    BencodeElem::Dictionary(es)
}

impl Torrent {
    /// The `info` dictionary of this torrent, an element of its own: its
    /// encoding is the hashed identity of the torrent.
    #[verifier::loop_isolation(false)]
    #[verifier::rlimit(100)]
    pub fn construct_info(&self) -> (r: BencodeElem)
        ensures
            r@ == spec_info_value(self@),
    {
        let mut es: Dictionary = Vec::new();
        proof {
            assert(view_dict(es@) =~= Seq::<(Seq<char>, BencodeValue)>::empty());
        }
        dict_insert(&mut es, "name".to_owned(), BencodeElem::String(self.name.clone()));
        dict_insert(&mut es, "piece length".to_owned(), BencodeElem::Integer(self.piece_length));
        let mut all_pieces: Vec<u8> = Vec::new();
        let n: usize = self.pieces.len();
        let mut k: usize = 0;
        let ghost pcs = self.pieces.deep_view();
        proof {
            assert(pcs.take(0) =~= Seq::<Seq<u8>>::empty());
            assert(all_pieces@ =~= concat_all(pcs.take(0)));
        }
        while k < n
            invariant
                0 <= k <= n,
                n == self.pieces@.len(),
                pcs == self.pieces.deep_view(),
                all_pieces@ == concat_all(pcs.take(k as int)),
            decreases n - k,
        {
            proof {
                assert(pcs[k as int] =~= self.pieces@[k as int]@);
            }
            crate::bencode::push_bytes(self.pieces[k].as_slice(), &mut all_pieces);
            proof {
                lemma_concat_all_take(pcs, k as int);
                assert(all_pieces@ =~= concat_all(pcs.take(k + 1)));
            }
            k = k + 1;
        }
        proof {
            assert(pcs.take(n as int) =~= pcs);
        }
        dict_insert(&mut es, "pieces".to_owned(), BencodeElem::Bytes(all_pieces));
        match &self.files {
            None => {
                dict_insert(&mut es, "length".to_owned(), BencodeElem::Integer(self.length));
            },
            Some(fs) => {
                let mut file_elems: Vec<BencodeElem> = Vec::new();
                let fn_count: usize = fs.len();
                let mut t: usize = 0;
                let ghost fvs = view_files(fs@);
                while t < fn_count
                    invariant
                        0 <= t <= fn_count,
                        fn_count == fs@.len(),
                        fvs == view_files(fs@),
                        fvs.len() == fn_count,
                        forall|s: int| 0 <= s < fn_count ==> #[trigger] fvs[s] == fs@[s]@,
                        file_elems@.len() == t,
                        forall|s: int|
                            0 <= s < t ==> view_elem(#[trigger] file_elems@[s])
                                == spec_file_value(fvs[s]),
                    decreases fn_count - t,
                {
                    let fe = construct_file_elem(&fs[t]);
                    file_elems.push(fe);
                    t = t + 1;
                }
                proof {
                    lemma_view_list_index(file_elems@);
                    assert(view_list(file_elems@) =~= fvs.map_values(
                        |f: FileView| spec_file_value(f),
                    ));
                }
                dict_insert(&mut es, "files".to_owned(), BencodeElem::List(file_elems));
            },
        }
        match &self.extra_info_fields {
            None => {},
            Some(extras) => {
                insert_all(&mut es, extras);
            },
        }
        BencodeElem::Dictionary(es)
    }

    /// The whole torrent as one dictionary element.
    #[verifier::loop_isolation(false)]
    #[verifier::rlimit(100)]
    pub fn construct_root(&self) -> (r: BencodeElem)
        ensures
            r@ == spec_root_value(self@),
    {
        let mut es: Dictionary = Vec::new();
        proof {
            assert(view_dict(es@) =~= Seq::<(Seq<char>, BencodeValue)>::empty());
        }
        dict_insert(&mut es, "announce".to_owned(), BencodeElem::String(self.announce.clone()));
        match &self.announce_list {
            None => {},
            Some(al) => {
                let mut tier_elems: Vec<BencodeElem> = Vec::new();
                let tn: usize = al.len();
                let mut t: usize = 0;
                let ghost alv = al.deep_view();
                while t < tn
                    invariant
                        0 <= t <= tn,
                        tn == al@.len(),
                        alv == al.deep_view(),
                        alv.len() == tn,
                        forall|s: int| 0 <= s < tn ==> #[trigger] alv[s] == al@[s].deep_view(),
                        tier_elems@.len() == t,
                        forall|s: int|
                            0 <= s < t ==> view_elem(#[trigger] tier_elems@[s])
                                == BencodeValue::List(
                                alv[s].map_values(|u: Seq<char>| BencodeValue::String(u)),
                            ),
                    decreases tn - t,
                {
                    let tier = &al[t];
                    let mut url_elems: Vec<BencodeElem> = Vec::new();
                    let un: usize = tier.len();
                    let mut u: usize = 0;
                    let ghost tv = tier.deep_view();
                    while u < un
                        invariant
                            0 <= u <= un,
                            un == tier@.len(),
                            tv == tier.deep_view(),
                            tv.len() == un,
                            forall|s: int| 0 <= s < un ==> #[trigger] tv[s] == tier@[s]@,
                            url_elems@.len() == u,
                            forall|s: int|
                                0 <= s < u ==> view_elem(#[trigger] url_elems@[s])
                                    == BencodeValue::String(tv[s]),
                        decreases un - u,
                    {
                        url_elems.push(BencodeElem::String(tier[u].clone()));
                        u = u + 1;
                    }
                    proof {
                        lemma_view_list_index(url_elems@);
                        assert(view_list(url_elems@) =~= tv.map_values(
                            |x: Seq<char>| BencodeValue::String(x),
                        ));
                        assert(alv[t as int] == tv);
                    }
                    tier_elems.push(BencodeElem::List(url_elems));
                    t = t + 1;
                }
                proof {
                    lemma_view_list_index(tier_elems@);
                    assert(view_list(tier_elems@) =~= alv.map_values(
                        |tier: Seq<Seq<char>>|
                            BencodeValue::List(
                                tier.map_values(|x: Seq<char>| BencodeValue::String(x)),
                            ),
                    ));
                }
                dict_insert(&mut es, "announce-list".to_owned(), BencodeElem::List(tier_elems));
            },
        }
        let info = self.construct_info();
        dict_insert(&mut es, "info".to_owned(), info);
        match &self.extra_fields {
            None => {},
            Some(extras) => {
                insert_all(&mut es, extras);
            },
        }
        BencodeElem::Dictionary(es)
    }

    /// This torrent's canonical wire form.
    pub fn encode(&self) -> (r: Vec<u8>)
        ensures
            r@ == encoded(spec_root_value(self@)),
    {
        let root = self.construct_root();
        root.encode()
    }

    /// The torrent's identity: the SHA-1 of the encoded `info`
    /// dictionary.
    pub fn info_hash(&self) -> (r: Vec<u8>)
        ensures
            r@ == sha1_of(encoded(spec_info_value(self@))),
            r@.len() == 20,
    {
        let info = self.construct_info();
        let bytes = info.encode();
        sha1_digest(bytes.as_slice())
    }
}

} // verus!

verus! {

/// The info hash is a function of the `info` dictionary alone: torrents
/// that agree on name, piece length, pieces, mode and `info` extras
/// hash alike, whatever their trackers or root extras say.
pub proof fn lemma_info_hash_deterministic(t1: TorrentView, t2: TorrentView)
    requires
        t1.name == t2.name,
        t1.piece_length == t2.piece_length,
        t1.pieces == t2.pieces,
        t1.length == t2.length,
        t1.files == t2.files,
        t1.extra_info_fields == t2.extra_info_fields,
    ensures
        sha1_of(encoded(spec_info_value(t1))) == sha1_of(encoded(spec_info_value(t2))),
{
    assert(spec_info_entries(t1) == spec_info_entries(t2));
}

} // verus!

verus! {

use crate::error::{ErrorKind, LavaError};
use crate::read::spec_parse_stream;
use crate::tracker::{split_dict, key_in, opt_elem_view, wrap_extras};
use crate::bencode::spec_dict_get;

/// The strings of a list, when every element is a string.
pub open spec fn strings_of_list(ps: Seq<BencodeValue>) -> Option<Seq<Seq<char>>>
    decreases ps,
{
    if ps.len() == 0 {
        Some(Seq::empty())
    } else {
        match ps[0] {
            BencodeValue::String(s) => match strings_of_list(ps.drop_first()) {
                Some(rest) => Some(seq![s] + rest),
                None => None,
            },
            _ => None,
        }
    }
}

/// The file-entry keys.
pub open spec fn file_keys() -> Seq<Seq<char>> {
    seq!["length"@, "path"@]
}

/// One `files` entry: a dictionary with a non-negative `length` and a
/// `path` list of strings; the rest is kept as extras.
pub open spec fn spec_read_file(v: BencodeValue) -> Option<FileView> {
    match v {
        BencodeValue::Dictionary(es) => match spec_dict_get(es, "length"@) {
            Some(BencodeValue::Integer(l)) => if l < 0 {
                None
            } else {
                match spec_dict_get(es, "path"@) {
                    Some(BencodeValue::List(ps)) => match strings_of_list(ps) {
                        Some(path) => Some(
                            FileView {
                                length: l,
                                path,
                                extra_fields: wrap_extras(
                                    es.filter(
                                        (|kv: (Seq<char>, BencodeValue)|
                                            !key_in(kv.0, file_keys())),
                                    ),
                                ),
                            },
                        ),
                        None => None,
                    },
                    _ => None,
                }
            },
            _ => None,
        },
        _ => None,
    }
}

/// All `files` entries in order.
pub open spec fn spec_read_files(xs: Seq<BencodeValue>) -> Option<Seq<FileView>>
    decreases xs,
{
    if xs.len() == 0 {
        Some(Seq::empty())
    } else {
        match spec_read_file(xs[0]) {
            Some(f) => match spec_read_files(xs.drop_first()) {
                Some(rest) => Some(seq![f] + rest),
                None => None,
            },
            None => None,
        }
    }
}

/// The total length of the listed files.
pub open spec fn sum_file_lengths(fs: Seq<FileView>) -> int
    decreases fs,
{
    if fs.len() == 0 {
        0
    } else {
        sum_file_lengths(fs.drop_last()) + fs.last().length
    }
}

/// The `info` keys.
pub open spec fn info_keys() -> Seq<Seq<char>> {
    seq!["name"@, "piece length"@, "pieces"@, "length"@, "files"@]
}

/// The root keys.
pub open spec fn root_keys() -> Seq<Seq<char>> {
    seq!["announce"@, "announce-list"@, "info"@]
}

/// The fields of a schema-valid `info` dictionary: name, a positive
/// piece length, pieces split into twenty-byte digests, exactly one of
/// `length` (non-negative) or `files` (with their summed length fitting
/// the length field), and the leftover entries.
pub open spec fn spec_read_info(v: BencodeValue) -> Option<
    (Seq<char>, int, Seq<Seq<u8>>, Option<Seq<FileView>>, int, Option<
        Seq<(Seq<char>, BencodeValue)>,
    >),
> {
    match v {
        BencodeValue::Dictionary(ies) => match spec_dict_get(ies, "name"@) {
            Some(BencodeValue::String(nm)) => match spec_dict_get(ies, "piece length"@) {
                Some(BencodeValue::Integer(pl)) => if pl <= 0 {
                    None
                } else {
                    match spec_dict_get(ies, "pieces"@) {
                        Some(BencodeValue::Bytes(pb)) => if pb.len() % 20 != 0 {
                            None
                        } else {
                            let pieces = Seq::new(
                                pb.len() / 20,
                                |i: int| pb.subrange(20 * i, 20 * i + 20),
                            );
                            let extras = wrap_extras(
                                ies.filter(
                                    (|kv: (Seq<char>, BencodeValue)| !key_in(kv.0, info_keys())),
                                ),
                            );
                            match (
                                spec_dict_get(ies, "length"@),
                                spec_dict_get(ies, "files"@),
                            ) {
                                (Some(BencodeValue::Integer(l)), None) => if l < 0 {
                                    None
                                } else {
                                    Some((nm, pl, pieces, None, l, extras))
                                },
                                (None, Some(BencodeValue::List(xs))) => match spec_read_files(
                                    xs,
                                ) {
                                    Some(fs) => if sum_file_lengths(fs) > i64::MAX {
                                        None
                                    } else {
                                        Some(
                                            (
                                                nm,
                                                pl,
                                                pieces,
                                                Some(fs),
                                                sum_file_lengths(fs),
                                                extras,
                                            ),
                                        )
                                    },
                                    None => None,
                                },
                                _ => None,
                            }
                        },
                        _ => None,
                    }
                },
                _ => None,
            },
            _ => None,
        },
        _ => None,
    }
}

/// The tiers of an `announce-list` value.
pub open spec fn spec_read_tiers(xs: Seq<BencodeValue>) -> Option<Seq<Seq<Seq<char>>>>
    decreases xs,
{
    if xs.len() == 0 {
        Some(Seq::empty())
    } else {
        match xs[0] {
            BencodeValue::List(tier) => match strings_of_list(tier) {
                Some(urls) => match spec_read_tiers(xs.drop_first()) {
                    Some(rest) => Some(seq![urls] + rest),
                    None => None,
                },
                _ => None,
            },
            _ => None,
        }
    }
}

/// A whole torrent from one top-level value, as the schema lays it
/// down.
pub open spec fn spec_read_torrent(v: BencodeValue) -> Option<TorrentView> {
    match v {
        BencodeValue::Dictionary(es) => match spec_dict_get(es, "announce"@) {
            Some(BencodeValue::String(announce)) => {
                let alr: Option<Option<Seq<Seq<Seq<char>>>>> = match spec_dict_get(
                    es,
                    "announce-list"@,
                ) {
                    None => Some(None),
                    Some(BencodeValue::List(xs)) => match spec_read_tiers(xs) {
                        Some(al) => Some(Some(al)),
                        None => None,
                    },
                    Some(_) => None,
                };
                match alr {
                    None => None,
                    Some(announce_list) => match spec_dict_get(es, "info"@) {
                        Some(iv) => match spec_read_info(iv) {
                            Some((nm, pl, pieces, files, length, extra_info)) => Some(
                                TorrentView {
                                    announce,
                                    announce_list,
                                    length,
                                    files,
                                    name: nm,
                                    piece_length: pl,
                                    pieces,
                                    extra_fields: wrap_extras(
                                        es.filter(
                                            (|kv: (Seq<char>, BencodeValue)|
                                                !key_in(kv.0, root_keys())),
                                        ),
                                    ),
                                    extra_info_fields: extra_info,
                                },
                            ),
                            None => None,
                        },
                        None => None,
                    },
                }
            },
            _ => None,
        },
        _ => None,
    }
}

} // verus!

verus! {

use crate::bencode::lemma_view_dict_index;

/// Lengths read from file entries are never negative.
pub proof fn lemma_read_files_facts(xs: Seq<BencodeValue>)
    ensures
        spec_read_files(xs) matches Some(fs) ==> ({
            &&& fs.len() == xs.len()
            &&& forall|i: int| 0 <= i < fs.len() ==> (#[trigger] fs[i]).length >= 0
        }),
    decreases xs,
{
    if xs.len() > 0 && spec_read_files(xs) is Some {
        lemma_read_files_facts(xs.drop_first());
        let f = spec_read_file(xs[0])->0;
        let rest = spec_read_files(xs.drop_first())->0;
        let fs = spec_read_files(xs)->0;
        assert(fs == seq![f] + rest);
        assert forall|i: int| 0 <= i < fs.len() implies (#[trigger] fs[i]).length >= 0 by {
            if i == 0 {
                assert(fs[0] == f);
            } else {
                assert(fs[i] == rest[i - 1]);
            }
        }
    }
}

pub proof fn lemma_sum_take(fs: Seq<FileView>, k: int)
    requires
        0 <= k < fs.len(),
    ensures
        sum_file_lengths(fs.take(k + 1)) == sum_file_lengths(fs.take(k)) + fs[k].length,
    decreases fs,
{
    if k + 1 == fs.len() {
        assert(fs.take(k + 1) =~= fs);
        assert(fs.take(k) =~= fs.drop_last());
    } else {
        lemma_sum_take(fs.drop_last(), k);
        assert(fs.drop_last().take(k + 1) =~= fs.take(k + 1));
        assert(fs.drop_last().take(k) =~= fs.take(k));
    }
}

pub proof fn lemma_sum_prefix(fs: Seq<FileView>, k: int)
    requires
        0 <= k <= fs.len(),
        forall|i: int| 0 <= i < fs.len() ==> (#[trigger] fs[i]).length >= 0,
    ensures
        sum_file_lengths(fs.take(k)) <= sum_file_lengths(fs),
    decreases fs.len() - k,
{
    if k < fs.len() {
        lemma_sum_take(fs, k);
        lemma_sum_prefix(fs, k + 1);
    } else {
        assert(fs.take(k) =~= fs);
    }
}

/// One `files` entry, as [`spec_read_file`] reads it.
#[verifier::loop_isolation(false)]
#[verifier::rlimit(100)]
fn read_file_entry(v: BencodeElem) -> (r: Result<File, LavaError>)
    ensures
        r matches Ok(f) ==> spec_read_file(view_elem(v)) == Some(f@),
        r is Err ==> spec_read_file(view_elem(v)) is None && r->Err_0.kind
            == ErrorKind::MalformedTorrent,
{
    let es = match v {
        BencodeElem::Dictionary(es) => es,
        _ => {
            return Err(
                LavaError::new(ErrorKind::MalformedTorrent, "a file entry is not a dictionary"),
            );
        },
    };
    let ghost es0 = view_dict(es@);
    let mut keys: Vec<String> = Vec::new();
    keys.push("length".to_owned());
    keys.push("path".to_owned());
    proof {
        reveal_strlit("length");
        reveal_strlit("path");
        assert(keys@.len() == 2);
        assert(keys@[0]@ == "length"@);
        assert(keys@[1]@ == "path"@);
        assert(keys.deep_view() =~= file_keys());
    }
    let (mut slots, extras) = split_dict(es, &keys);
    let ghost exec_pred = |kv: (Seq<char>, BencodeValue)| !key_in(kv.0, keys.deep_view());
    let ghost spec_pred = |kv: (Seq<char>, BencodeValue)| !key_in(kv.0, file_keys());
    proof {
        assert(exec_pred =~= spec_pred);
        lemma_view_dict_index(extras@);
    }
    let s_length = slots.remove(0);
    let s_path = slots.remove(0);
    let length: i64 = match s_length {
        Some(BencodeElem::Integer(l)) => l,
        _ => {
            return Err(
                LavaError::new(
                    ErrorKind::MalformedTorrent,
                    "a file entry's `length` is missing or not an integer",
                ),
            );
        },
    };
    if length < 0 {
        return Err(
            LavaError::new(ErrorKind::MalformedTorrent, "a file entry's `length` is negative"),
        );
    }
    let ps = match s_path {
        Some(BencodeElem::List(ps)) => ps,
        _ => {
            return Err(
                LavaError::new(
                    ErrorKind::MalformedTorrent,
                    "a file entry's `path` is missing or not a list",
                ),
            );
        },
    };
    let ghost psv = view_list(ps@);
    proof {
        crate::bencode::lemma_view_list_index(ps@);
        assert(psv.skip(0) =~= psv);
    }
    let mut rest = ps;
    let mut path: Vec<String> = Vec::new();
    let n: usize = rest.len();
    let mut t: usize = 0;
    proof {
        assert(path.deep_view() =~= Seq::<Seq<char>>::empty());
        if strings_of_list(psv) is Some {
            assert(path.deep_view() + strings_of_list(psv)->0 =~= strings_of_list(psv)->0);
        }
    }
    let ghost ps0 = rest@;
    while t < n
        invariant
            0 <= t <= n,
            n == ps0.len(),
            t + rest@.len() == n,
            rest@ =~= ps0.skip(t as int),
            psv == view_list(ps0),
            psv.len() == n,
            forall|s: int| 0 <= s < n ==> #[trigger] psv[s] == view_elem(ps0[s]),
            path@.len() == t,
            strings_of_list(psv) == (match strings_of_list(psv.skip(t as int)) {
                Some(ss) => Some(path.deep_view() + ss),
                None => None::<Seq<Seq<char>>>,
            }),
        decreases n - t,
    {
        let e = rest.remove(0);
        proof {
            assert(ps0.skip(t as int)[0] == ps0[t as int]);
            assert(rest@ =~= ps0.skip(t + 1));
            assert(psv.skip(t as int)[0] == psv[t as int]);
            assert(psv.skip(t as int).drop_first() =~= psv.skip(t + 1));
        }
        let s = match e {
            BencodeElem::String(s) => s,
            _ => {
                return Err(
                    LavaError::new(
                        ErrorKind::MalformedTorrent,
                        "a file entry's `path` holds a non-string component",
                    ),
                );
            },
        };
        let ghost old_path = path.deep_view();
        path.push(s);
        proof {
            assert(path.deep_view() =~= old_path.push(psv[t as int]->String_0)) by {
                assert forall|u: int| 0 <= u < path.deep_view().len() implies path.deep_view()[u]
                    == old_path.push(psv[t as int]->String_0)[u] by {
                    if u < old_path.len() {
                        assert(path@[u] == path@.drop_last()[u]);
                    }
                }
            }
            let r2 = strings_of_list(psv.skip(t + 1));
            if r2 is Some {
                assert(old_path + (seq![psv[t as int]->String_0] + r2->0) =~= (old_path.push(
                    psv[t as int]->String_0,
                )) + r2->0);
            }
        }
        t = t + 1;
    }
    proof {
        assert(psv.skip(n as int) =~= Seq::<BencodeValue>::empty());
        assert(strings_of_list(Seq::<BencodeValue>::empty()) == Some(Seq::<Seq<char>>::empty()));
        assert(path.deep_view() + Seq::<Seq<char>>::empty() =~= path.deep_view());
    }
    let extra_fields: Option<Dictionary> = if extras.len() == 0 {
        None
    } else {
        Some(extras)
    };
    Ok(File { length, path, extra_fields })
}

} // verus!

verus! {

/// The views of a list of files.
pub open spec fn deep_files(fs: Seq<File>) -> Seq<FileView> {
    fs.map_values(|f: File| f@)
}

/// All `files` entries, as [`spec_read_files`] reads them.
#[verifier::loop_isolation(false)]
fn read_files(xs: Vec<BencodeElem>) -> (r: Result<Vec<File>, LavaError>)
    ensures
        r matches Ok(fs) ==> spec_read_files(view_list(xs@)) == Some(deep_files(fs@)),
        r is Err ==> spec_read_files(view_list(xs@)) is None && r->Err_0.kind
            == ErrorKind::MalformedTorrent,
{
    let ghost xv = view_list(xs@);
    proof {
        crate::bencode::lemma_view_list_index(xs@);
        assert(xv.skip(0) =~= xv);
    }
    let mut rest = xs;
    let ghost xs0 = rest@;
    let mut files: Vec<File> = Vec::new();
    let n: usize = rest.len();
    let mut t: usize = 0;
    proof {
        assert(deep_files(files@) =~= Seq::<FileView>::empty());
        if spec_read_files(xv) is Some {
            assert(deep_files(files@) + spec_read_files(xv)->0 =~= spec_read_files(xv)->0);
        }
    }
    while t < n
        invariant
            0 <= t <= n,
            n == xs0.len(),
            t + rest@.len() == n,
            rest@ =~= xs0.skip(t as int),
            xv == view_list(xs0),
            xv.len() == n,
            forall|s: int| 0 <= s < n ==> #[trigger] xv[s] == view_elem(xs0[s]),
            files@.len() == t,
            spec_read_files(xv) == (match spec_read_files(xv.skip(t as int)) {
                Some(fs) => Some(deep_files(files@) + fs),
                None => None::<Seq<FileView>>,
            }),
        decreases n - t,
    {
        let e = rest.remove(0);
        proof {
            assert(xs0.skip(t as int)[0] == xs0[t as int]);
            assert(rest@ =~= xs0.skip(t + 1));
            assert(xv.skip(t as int)[0] == xv[t as int]);
            assert(xv.skip(t as int).drop_first() =~= xv.skip(t + 1));
        }
        let f = match read_file_entry(e) {
            Ok(f) => f,
            Err(e2) => {
                return Err(e2);
            },
        };
        let ghost old_files = files@;
        files.push(f);
        proof {
            assert(deep_files(files@) =~= deep_files(old_files).push(f@)) by {
                assert forall|u: int| 0 <= u < files@.len() implies deep_files(files@)[u]
                    == deep_files(old_files).push(f@)[u] by {
                    assert(deep_files(files@)[u] == files@[u]@);
                    if u < old_files.len() {
                        assert(files@[u] == old_files[u]);
                        assert(deep_files(old_files)[u] == old_files[u]@);
                    }
                }
            }
            let r2 = spec_read_files(xv.skip(t + 1));
            if r2 is Some {
                assert(deep_files(old_files) + (seq![f@] + r2->0) =~= (deep_files(
                    old_files,
                ).push(f@)) + r2->0);
            }
        }
        t = t + 1;
    }
    proof {
        assert(xv.skip(n as int) =~= Seq::<BencodeValue>::empty());
        assert(spec_read_files(Seq::<BencodeValue>::empty()) == Some(Seq::<FileView>::empty()));
        assert(deep_files(files@) + Seq::<FileView>::empty() =~= deep_files(files@));
    }
    Ok(files)
}

/// The tiers of an `announce-list`, as [`spec_read_tiers`] reads them.
#[verifier::loop_isolation(false)]
#[verifier::rlimit(100)]
fn read_tiers(xs: Vec<BencodeElem>) -> (r: Result<AnnounceList, LavaError>)
    ensures
        r matches Ok(al) ==> spec_read_tiers(view_list(xs@)) == Some(al.deep_view()),
        r is Err ==> spec_read_tiers(view_list(xs@)) is None && r->Err_0.kind
            == ErrorKind::MalformedTorrent,
{
    let ghost xv = view_list(xs@);
    proof {
        crate::bencode::lemma_view_list_index(xs@);
        assert(xv.skip(0) =~= xv);
    }
    let mut rest = xs;
    let ghost xs0 = rest@;
    let mut tiers: AnnounceList = Vec::new();
    let n: usize = rest.len();
    let mut t: usize = 0;
    proof {
        assert(tiers.deep_view() =~= Seq::<Seq<Seq<char>>>::empty());
        if spec_read_tiers(xv) is Some {
            assert(tiers.deep_view() + spec_read_tiers(xv)->0 =~= spec_read_tiers(xv)->0);
        }
    }
    while t < n
        invariant
            0 <= t <= n,
            n == xs0.len(),
            t + rest@.len() == n,
            rest@ =~= xs0.skip(t as int),
            xv == view_list(xs0),
            xv.len() == n,
            forall|s: int| 0 <= s < n ==> #[trigger] xv[s] == view_elem(xs0[s]),
            tiers@.len() == t,
            spec_read_tiers(xv) == (match spec_read_tiers(xv.skip(t as int)) {
                Some(al) => Some(tiers.deep_view() + al),
                None => None::<Seq<Seq<Seq<char>>>>,
            }),
        decreases n - t,
    {
        let e = rest.remove(0);
        proof {
            assert(xs0.skip(t as int)[0] == xs0[t as int]);
            assert(rest@ =~= xs0.skip(t + 1));
            assert(xv.skip(t as int)[0] == xv[t as int]);
            assert(xv.skip(t as int).drop_first() =~= xv.skip(t + 1));
        }
        let tier_elems = match e {
            BencodeElem::List(ps) => ps,
            _ => {
                return Err(
                    LavaError::new(
                        ErrorKind::MalformedTorrent,
                        "`announce-list` holds a non-list tier",
                    ),
                );
            },
        };
        let ghost pv = view_list(tier_elems@);
        proof {
            crate::bencode::lemma_view_list_index(tier_elems@);
            assert(pv.skip(0) =~= pv);
        }
        let mut prest = tier_elems;
        let ghost p0 = prest@;
        let mut urls: Vec<String> = Vec::new();
        let pn: usize = prest.len();
        let mut u: usize = 0;
        proof {
            assert(urls.deep_view() =~= Seq::<Seq<char>>::empty());
            if strings_of_list(pv) is Some {
                assert(urls.deep_view() + strings_of_list(pv)->0 =~= strings_of_list(pv)->0);
            }
        }
        while u < pn
            invariant
                0 <= u <= pn,
                pn == p0.len(),
                u + prest@.len() == pn,
                prest@ =~= p0.skip(u as int),
                pv == view_list(p0),
                pv.len() == pn,
                forall|s: int| 0 <= s < pn ==> #[trigger] pv[s] == view_elem(p0[s]),
                urls@.len() == u,
                strings_of_list(pv) == (match strings_of_list(pv.skip(u as int)) {
                    Some(ss) => Some(urls.deep_view() + ss),
                    None => None::<Seq<Seq<char>>>,
                }),
            decreases pn - u,
        {
            let pe = prest.remove(0);
            proof {
                assert(p0.skip(u as int)[0] == p0[u as int]);
                assert(prest@ =~= p0.skip(u + 1));
                assert(pv.skip(u as int)[0] == pv[u as int]);
                assert(pv.skip(u as int).drop_first() =~= pv.skip(u + 1));
            }
            let s = match pe {
                BencodeElem::String(s) => s,
                _ => {
                    return Err(
                        LavaError::new(
                            ErrorKind::MalformedTorrent,
                            "`announce-list` holds a non-string url",
                        ),
                    );
                },
            };
            let ghost old_urls = urls.deep_view();
            urls.push(s);
            proof {
                assert(urls.deep_view() =~= old_urls.push(pv[u as int]->String_0)) by {
                    assert forall|w: int|
                        0 <= w < urls.deep_view().len() implies urls.deep_view()[w]
                        == old_urls.push(pv[u as int]->String_0)[w] by {
                        if w < old_urls.len() {
                            assert(urls@[w] == urls@.drop_last()[w]);
                        }
                    }
                }
                let r2 = strings_of_list(pv.skip(u + 1));
                if r2 is Some {
                    assert(old_urls + (seq![pv[u as int]->String_0] + r2->0) =~= (old_urls.push(
                        pv[u as int]->String_0,
                    )) + r2->0);
                }
            }
            u = u + 1;
        }
        proof {
            assert(pv.skip(pn as int) =~= Seq::<BencodeValue>::empty());
            assert(strings_of_list(Seq::<BencodeValue>::empty()) == Some(
                Seq::<Seq<char>>::empty(),
            ));
            assert(urls.deep_view() + Seq::<Seq<char>>::empty() =~= urls.deep_view());
        }
        let ghost old_tiers = tiers.deep_view();
        tiers.push(urls);
        proof {
            assert(tiers.deep_view() =~= old_tiers.push(strings_of_list(pv)->0)) by {
                assert forall|w: int| 0 <= w < tiers.deep_view().len() implies tiers.deep_view()[w]
                    == old_tiers.push(strings_of_list(pv)->0)[w] by {
                    if w < old_tiers.len() {
                        assert(tiers@[w] == tiers@.drop_last()[w]);
                    }
                }
            }
            let r2 = spec_read_tiers(xv.skip(t + 1));
            if r2 is Some {
                assert(old_tiers + (seq![strings_of_list(pv)->0] + r2->0) =~= (old_tiers.push(
                    strings_of_list(pv)->0,
                )) + r2->0);
            }
        }
        t = t + 1;
    }
    proof {
        assert(xv.skip(n as int) =~= Seq::<BencodeValue>::empty());
        assert(spec_read_tiers(Seq::<BencodeValue>::empty()) == Some(
            Seq::<Seq<Seq<char>>>::empty(),
        ));
        assert(tiers.deep_view() + Seq::<Seq<Seq<char>>>::empty() =~= tiers.deep_view());
    }
    Ok(tiers)
}

} // verus!

verus! {

/// The `info` dictionary's fields, as [`spec_read_info`] reads them
/// from a dictionary value.
#[verifier::loop_isolation(false)]
#[verifier::rlimit(100)]
#[verifier::spinoff_prover]
fn read_info_dict(ies: Vec<(String, BencodeElem)>) -> (r: Result<
    (String, i64, Vec<Vec<u8>>, Option<Vec<File>>, i64, Option<Dictionary>),
    LavaError,
>)
    ensures
        r matches Ok(out) ==> ({
            let (nm, pl, pieces, files, length, extras) = out;
            spec_read_info(BencodeValue::Dictionary(view_dict(ies@))) == Some(
                (
                    nm@,
                    pl as int,
                    pieces.deep_view(),
                    match files {
                        None => None::<Seq<FileView>>,
                        Some(fs) => Some(deep_files(fs@)),
                    },
                    length as int,
                    view_opt_dict(extras),
                ),
            )
        }),
        r is Err ==> spec_read_info(BencodeValue::Dictionary(view_dict(ies@))) is None
            && r->Err_0.kind == ErrorKind::MalformedTorrent,
{
    let ghost ies0 = view_dict(ies@);
    let mut ikeys: Vec<String> = Vec::new();
    ikeys.push("name".to_owned());
    ikeys.push("piece length".to_owned());
    ikeys.push("pieces".to_owned());
    ikeys.push("length".to_owned());
    ikeys.push("files".to_owned());
    proof {
        reveal_strlit("name");
        reveal_strlit("piece length");
        reveal_strlit("pieces");
        reveal_strlit("length");
        reveal_strlit("files");
        assert(ikeys@.len() == 5);
        assert(ikeys@[0]@ == "name"@);
        assert(ikeys@[1]@ == "piece length"@);
        assert(ikeys@[2]@ == "pieces"@);
        assert(ikeys@[3]@ == "length"@);
        assert(ikeys@[4]@ == "files"@);
        assert(ikeys.deep_view() =~= info_keys());
        assert forall|a: int, b: int| 0 <= a < b < ikeys@.len() implies (
        #[trigger] ikeys@[a])@ != (#[trigger] ikeys@[b])@ by {
            if ikeys@[a]@.len() == ikeys@[b]@.len() {
                assert(ikeys@[a]@[0] != ikeys@[b]@[0]);
            }
        }
    }
    let (mut islots, iextras) = split_dict(ies, &ikeys);
    let ghost iexec_pred = |kv: (Seq<char>, BencodeValue)| !key_in(kv.0, ikeys.deep_view());
    let ghost ispec_pred = |kv: (Seq<char>, BencodeValue)| !key_in(kv.0, info_keys());
    proof {
        assert(iexec_pred =~= ispec_pred);
        lemma_view_dict_index(iextras@);
    }
    let s_name = islots.remove(0);
    let s_pl = islots.remove(0);
    let s_pieces = islots.remove(0);
    let s_length = islots.remove(0);
    let s_files = islots.remove(0);
    let name: String = match s_name {
        Some(BencodeElem::String(n)) => n,
        _ => {
            return Err(
                LavaError::new(
                    ErrorKind::MalformedTorrent,
                    "`name` is missing or not a string",
                ),
            );
        },
    };
    let piece_length: i64 = match s_pl {
        Some(BencodeElem::Integer(pl)) => pl,
        _ => {
            return Err(
                LavaError::new(
                    ErrorKind::MalformedTorrent,
                    "`piece length` is missing or not an integer",
                ),
            );
        },
    };
    if piece_length <= 0 {
        return Err(
            LavaError::new(ErrorKind::MalformedTorrent, "`piece length` is not positive"),
        );
    }
    let pb = match s_pieces {
        Some(BencodeElem::Bytes(pb)) => pb,
        _ => {
            return Err(
                LavaError::new(
                    ErrorKind::MalformedTorrent,
                    "`pieces` is missing or not a string of raw bytes",
                ),
            );
        },
    };
    if pb.len() % 20 != 0 {
        return Err(
            LavaError::new(
                ErrorKind::MalformedTorrent,
                "`pieces` is not a multiple of twenty bytes",
            ),
        );
    }
    let count: usize = pb.len() / 20;
    let mut pieces: Vec<Vec<u8>> = Vec::new();
    let mut k: usize = 0;
    while k < count
        invariant
            0 <= k <= count,
            count == pb@.len() / 20,
            pb@.len() % 20 == 0,
            pieces@.len() == k,
            forall|t: int|
                0 <= t < k ==> (#[trigger] pieces@[t])@ == pb@.subrange(20 * t, 20 * t + 20),
        decreases count - k,
    {
        let start: usize = k * 20;
        let chunk = crate::read::copy_range(pb.as_slice(), start, 20);
        pieces.push(chunk);
        proof {
            assert(20 * (k as int) == start as int);
        }
        k = k + 1;
    }
    let ghost spec_pieces = Seq::new(
        pb@.len() / 20,
        |i: int| pb@.subrange(20 * i, 20 * i + 20),
    );
    proof {
        assert(pieces.deep_view().len() == count);
        assert forall|t: int| 0 <= t < count implies pieces.deep_view()[t]
            == spec_pieces[t] by {
            assert(pieces.deep_view()[t] =~= pieces@[t]@);
        }
        assert(pieces.deep_view() =~= spec_pieces);
    }
    let (length, files): (i64, Option<Vec<File>>) = match (s_length, s_files) {
        (Some(BencodeElem::Integer(l)), None) => {
            if l < 0 {
                return Err(
                    LavaError::new(ErrorKind::MalformedTorrent, "`length` is negative"),
                );
            }
            (l, None)
        },
        (None, Some(BencodeElem::List(xs))) => {
            let fs = match read_files(xs) {
                Ok(fs) => fs,
                Err(e) => {
                    return Err(e);
                },
            };
            let ghost fsv = deep_files(fs@);
            proof {
                lemma_read_files_facts(view_list(xs@));
                assert(fs@.len() == fsv.len());
                assert(fsv.take(0) =~= Seq::<FileView>::empty());
            }
            let mut total: i64 = 0;
            let fcount: usize = fs.len();
            let mut t: usize = 0;
            while t < fcount
                invariant
                    0 <= t <= fcount,
                    fcount == fs@.len(),
                    fsv == deep_files(fs@),
                    fsv.len() == fcount,
                    forall|s: int|
                        0 <= s < fcount ==> (#[trigger] fsv[s]).length >= 0 && fsv[s]
                            == fs@[s]@,
                    total as int == sum_file_lengths(fsv.take(t as int)),
                    total >= 0,
                decreases fcount - t,
            {
                proof {
                    lemma_sum_take(fsv, t as int);
                }
                let fl = fs[t].length;
                total = match total.checked_add(fl) {
                    Some(x) => x,
                    None => {
                        proof {
                            lemma_sum_prefix(fsv, t + 1);
                        }
                        return Err(
                            LavaError::new(
                                ErrorKind::MalformedTorrent,
                                "the total length does not fit a length field",
                            ),
                        );
                    },
                };
                t = t + 1;
            }
            proof {
                assert(fsv.take(fcount as int) =~= fsv);
            }
            (total, Some(fs))
        },
        (Some(_), Some(_)) => {
            return Err(
                LavaError::new(
                    ErrorKind::MalformedTorrent,
                    "both `length` and `files` are present",
                ),
            );
        },
        (Some(_), None) => {
            return Err(
                LavaError::new(ErrorKind::MalformedTorrent, "`length` is not an integer"),
            );
        },
        (None, Some(_)) => {
            return Err(
                LavaError::new(ErrorKind::MalformedTorrent, "`files` is not a list"),
            );
        },
        (None, None) => {
            return Err(
                LavaError::new(
                    ErrorKind::MalformedTorrent,
                    "neither `length` nor `files` is present",
                ),
            );
        },
    };
    let extra_info_fields: Option<Dictionary> = if iextras.len() == 0 {
        None
    } else {
        Some(iextras)
    };
    Ok((name, piece_length, pieces, files, length, extra_info_fields))
}

impl Torrent {
    /// Parse torrent metainfo.  The stream must hold exactly one
    /// dictionary; its fields are read as [`spec_read_torrent`] lays
    /// down.
    #[verifier::loop_isolation(false)]
    #[verifier::rlimit(100)]
    #[verifier::spinoff_prover]
    pub fn read_from_bytes(bytes: &[u8]) -> (r: Result<Torrent, LavaError>)
        ensures
            spec_parse_stream(bytes@, 0) is None ==> r is Err && r->Err_0.kind
                == ErrorKind::MalformedBencode,
            spec_parse_stream(bytes@, 0) matches Some(vs) ==> ((vs.len() != 1 ==> r is Err
                && r->Err_0.kind == ErrorKind::MalformedTorrent) && (vs.len() == 1 ==> (match
            spec_read_torrent(vs[0]) {
                Some(tv) => r matches Ok(t) && t@ == tv,
                None => r matches Err(e) && e.kind == ErrorKind::MalformedTorrent,
            }))),
    {
        let mut parsed = match BencodeElem::from_bytes(bytes) {
            Ok(v) => v,
            Err(e) => {
                return Err(e);
            },
        };
        proof {
            crate::bencode::lemma_view_list_index(parsed@);
        }
        if parsed.len() != 1 {
            return Err(
                LavaError::new(
                    ErrorKind::MalformedTorrent,
                    "a torrent should contain exactly one top-level element",
                ),
            );
        }
        let elem = parsed.remove(0);
        let ghost v0 = view_elem(elem);
        let es = match elem {
            BencodeElem::Dictionary(es) => es,
            _ => {
                return Err(
                    LavaError::new(ErrorKind::MalformedTorrent, "the torrent is not a dictionary"),
                );
            },
        };
        let ghost es0 = view_dict(es@);
        let mut keys: Vec<String> = Vec::new();
        keys.push("announce".to_owned());
        keys.push("announce-list".to_owned());
        keys.push("info".to_owned());
        proof {
            reveal_strlit("announce");
            reveal_strlit("announce-list");
            reveal_strlit("info");
            assert(keys@.len() == 3);
            assert(keys@[0]@ == "announce"@);
            assert(keys@[1]@ == "announce-list"@);
            assert(keys@[2]@ == "info"@);
            assert(keys.deep_view() =~= root_keys());
        }
        let (mut slots, extras) = split_dict(es, &keys);
        let ghost exec_pred = |kv: (Seq<char>, BencodeValue)| !key_in(kv.0, keys.deep_view());
        let ghost spec_pred = |kv: (Seq<char>, BencodeValue)| !key_in(kv.0, root_keys());
        proof {
            assert(exec_pred =~= spec_pred);
            lemma_view_dict_index(extras@);
        }
        let s_announce = slots.remove(0);
        let s_al = slots.remove(0);
        let s_info = slots.remove(0);
        let announce: String = match s_announce {
            Some(BencodeElem::String(a)) => a,
            _ => {
                return Err(
                    LavaError::new(
                        ErrorKind::MalformedTorrent,
                        "`announce` is missing or not a string",
                    ),
                );
            },
        };
        let announce_list: Option<AnnounceList> = match s_al {
            None => None,
            Some(BencodeElem::List(xs)) => {
                match read_tiers(xs) {
                    Ok(al) => Some(al),
                    Err(e) => {
                        return Err(e);
                    },
                }
            },
            Some(_) => {
                return Err(
                    LavaError::new(ErrorKind::MalformedTorrent, "`announce-list` is not a list"),
                );
            },
        };
        let ies = match s_info {
            Some(BencodeElem::Dictionary(ies)) => ies,
            Some(_) => {
                return Err(
                    LavaError::new(ErrorKind::MalformedTorrent, "`info` is not a dictionary"),
                );
            },
            None => {
                return Err(
                    LavaError::new(ErrorKind::MalformedTorrent, "`info` does not exist"),
                );
            },
        };
        let (name, piece_length, pieces, files, length, extra_info_fields) =
            match read_info_dict(ies) {
            Ok(out) => out,
            Err(e) => {
                return Err(e);
            },
        };
        let extra_fields: Option<Dictionary> = if extras.len() == 0 {
            None
        } else {
            Some(extras)
        };
        let out = Torrent {
            announce,
            announce_list,
            length,
            files,
            name,
            piece_length,
            pieces,
            extra_fields,
            extra_info_fields,
        };
        proof {
            let tv = spec_read_torrent(v0)->0;
            assert(out@ == tv);
        }
        Ok(out)
    }
}

} // verus!

verus! {

use crate::strings::{hex2_chars, hex2_string};

/// The magnet form of a torrent: its info hash in hexadecimal, its
/// name, and its primary tracker.
pub open spec fn spec_magnet(t: TorrentView) -> Seq<char> {
    "magnet:?xt=urn:btih:"@ + hex2_chars(sha1_of(encoded(spec_info_value(t)))) + "&dn="@ + t.name
        + "&tr="@ + t.announce
}

impl Torrent {
    /// This torrent's magnet link.
    pub fn magnet_link(&self) -> (r: String)
        ensures
            r@ == spec_magnet(self@),
    {
        let hash = self.info_hash();
        let hex = hex2_string(hash.as_slice());
        let mut out = <String as vstd::string::StringExecFns>::from_str("magnet:?xt=urn:btih:");
        vstd::string::StringExecFns::append(&mut out, hex.as_str());
        vstd::string::StringExecFns::append(&mut out, "&dn=");
        vstd::string::StringExecFns::append(&mut out, self.name.as_str());
        vstd::string::StringExecFns::append(&mut out, "&tr=");
        vstd::string::StringExecFns::append(&mut out, self.announce.as_str());
        proof {
            assert(out@ =~= spec_magnet(self@));
        }
        out
    }
}

} // verus!
