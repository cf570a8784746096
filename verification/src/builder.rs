use vstd::prelude::*;

verus! {

use crate::bencode::{BencodeElem, BencodeValue, view_dict, spec_dict_insert, dict_insert};
use crate::error::{ErrorKind, LavaError};
use crate::torrent::{Torrent, File, Dictionary, AnnounceList};
use crate::strings::str_eq;

/// One segment has ended: it joins the list unless it is empty.
pub open spec fn close_segment(cur: Seq<char>) -> Seq<Seq<char>> {
    if cur.len() == 0 {
        Seq::empty()
    } else {
        seq![cur]
    }
}

/// The non-empty `/`-separated segments of a path string, `cur` being
/// the partial segment already read.
pub open spec fn split_path_acc(s: Seq<char>, cur: Seq<char>) -> Seq<Seq<char>>
    decreases s.len(),
{
    if s.len() == 0 {
        close_segment(cur)
    } else if s[0] == '/' {
        close_segment(cur) + split_path_acc(s.drop_first(), Seq::empty())
    } else {
        split_path_acc(s.drop_first(), cur.push(s[0]))
    }
}

/// The segments of a path string.
pub open spec fn raw_segments(s: Seq<char>) -> Seq<Seq<char>> {
    split_path_acc(s, Seq::empty())
}

/// The components of a path string: its segments with the `.` segments
/// dropped, as a filesystem resolves them.
pub open spec fn path_components_of(s: Seq<char>) -> Seq<Seq<char>> {
    raw_segments(s).filter(|seg: Seq<char>| seg != seq!['.'])
}

/// A filesystem path as the builder holds it: whether it was absolute,
/// and its components in order.  `.` segments and repeated or trailing
/// separators are already resolved away; `..` is kept, for validation to
/// reject.
#[derive(Debug, PartialEq, Eq, Default)]
pub struct FilePath {
    pub absolute: bool,
    pub components: Vec<String>,
}

/// The mathematical value of a [`FilePath`].
pub struct FilePathView {
    pub absolute: bool,
    pub components: Seq<Seq<char>>,
}

impl View for FilePath {
    type V = FilePathView;

    open spec fn view(&self) -> FilePathView {
        FilePathView { absolute: self.absolute, components: self.components.deep_view() }
    }
}

impl FilePath {
    /// Read a path string into its components.
    #[verifier::loop_isolation(false)]
    pub fn new(s: &str) -> (r: FilePath)
        ensures
            r@.absolute == (s@.len() > 0 && s@[0] == '/'),
            r@.components == path_components_of(s@),
    {
        let n = vstd::string::StrSliceExecFns::unicode_len(s);
        let absolute = n > 0 && vstd::string::StrSliceExecFns::get_char(s, 0) == '/';
        let mut components: Vec<String> = Vec::new();
        let mut start: usize = 0;
        let mut i: usize = 0;
        let ghost pred = |seg: Seq<char>| seg != seq!['.'];
        let ghost mut finished: Seq<Seq<char>> = Seq::empty();
        proof {
            reveal(Seq::filter);
            assert(s@.skip(0) =~= s@);
            assert(s@.subrange(0, 0) =~= Seq::<char>::empty());
            assert(Seq::<Seq<char>>::empty() + raw_segments(s@) =~= raw_segments(s@));
            assert(Seq::<Seq<char>>::empty().filter(pred) =~= Seq::<Seq<char>>::empty());
            assert(components.deep_view() =~= Seq::<Seq<char>>::empty());
        }
        while i < n
            invariant
                0 <= start <= i <= n,
                n == s@.len(),
                raw_segments(s@) == finished + split_path_acc(
                    s@.skip(i as int),
                    s@.subrange(start as int, i as int),
                ),
                components.deep_view() == finished.filter(pred),
                forall|t: int| start <= t < i ==> #[trigger] s@[t] != '/',
            decreases n - i,
        {
            let c = vstd::string::StrSliceExecFns::get_char(s, i);
            if c == '/' {
                let ghost cur = s@.subrange(start as int, i as int);
                if i > start {
                    let seg = vstd::string::StrSliceExecFns::substring_char(s, start, i);
                    let keep = !(seg.unicode_len() == 1 && vstd::string::StrSliceExecFns::get_char(
                        seg,
                        0,
                    ) == '.');
                    proof {
                        reveal(Seq::filter);
                        assert(seg@ == cur);
                        if !keep {
                            assert(cur =~= seq!['.']);
                        } else {
                            assert(cur != seq!['.']);
                        }
                        assert(finished.push(cur).drop_last() =~= finished);
                        assert(finished.push(cur).last() == cur);
                        if pred(cur) {
                            assert(finished.push(cur).filter(pred) =~= finished.filter(
                                pred,
                            ).push(cur));
                        } else {
                            assert(finished.push(cur).filter(pred) =~= finished.filter(pred));
                        }
                        assert(close_segment(cur) =~= seq![cur]);
                        assert(finished + (close_segment(cur) + split_path_acc(
                            s@.skip(i + 1),
                            Seq::empty(),
                        )) =~= finished.push(cur) + split_path_acc(s@.skip(i + 1), Seq::empty()));
                        assert(s@.skip(i as int).drop_first() =~= s@.skip(i + 1));
                        finished = finished.push(cur);
                    }
                    if keep {
                        let owned = seg.to_owned();
                        components.push(owned);
                        proof {
                            assert(components.deep_view() =~= finished.filter(pred));
                        }
                    }
                } else {
                    proof {
                        assert(cur.len() == 0);
                        assert(close_segment(cur) =~= Seq::<Seq<char>>::empty());
                        assert(close_segment(cur) + split_path_acc(s@.skip(i + 1), Seq::empty())
                            =~= split_path_acc(s@.skip(i + 1), Seq::empty()));
                        assert(s@.skip(i as int).drop_first() =~= s@.skip(i + 1));
                    }
                }
                start = i + 1;
                i = i + 1;
                proof {
                    assert(s@.subrange(start as int, i as int) =~= Seq::<char>::empty());
                }
            } else {
                proof {
                    assert(s@.skip(i as int).drop_first() =~= s@.skip(i + 1));
                    assert(s@.subrange(start as int, i as int).push(s@[i as int]) =~= s@.subrange(
                        start as int,
                        i + 1,
                    ));
                }
                i = i + 1;
            }
        }
        let ghost cur = s@.subrange(start as int, i as int);
        proof {
            assert(s@.skip(n as int) =~= Seq::<char>::empty());
            assert(split_path_acc(Seq::<char>::empty(), cur) == close_segment(cur));
        }
        if i > start {
            let seg = vstd::string::StrSliceExecFns::substring_char(s, start, i);
            let keep = !(seg.unicode_len() == 1 && vstd::string::StrSliceExecFns::get_char(seg, 0)
                == '.');
            proof {
                reveal(Seq::filter);
                assert(seg@ == cur);
                if !keep {
                    assert(cur =~= seq!['.']);
                } else {
                    assert(cur != seq!['.']);
                }
                assert(close_segment(cur) =~= seq![cur]);
                assert(finished + seq![cur] =~= finished.push(cur));
                assert(finished.push(cur).drop_last() =~= finished);
                assert(finished.push(cur).last() == cur);
                if pred(cur) {
                    assert(finished.push(cur).filter(pred) =~= finished.filter(pred).push(cur));
                } else {
                    assert(finished.push(cur).filter(pred) =~= finished.filter(pred));
                }
                finished = finished.push(cur);
            }
            if keep {
                let owned = seg.to_owned();
                components.push(owned);
                proof {
                    assert(components.deep_view() =~= finished.filter(pred));
                }
            }
        } else {
            proof {
                assert(close_segment(cur) =~= Seq::<Seq<char>>::empty());
                assert(finished + close_segment(cur) =~= finished);
            }
        }
        FilePath { absolute, components }
    }

    /// The number of components.
    pub fn component_count(&self) -> (n: usize)
        ensures
            n == self@.components.len(),
    {
        self.components.len()
    }
}

} // verus!

verus! {

use crate::bencode::Integer;

/// Configuration from which [`TorrentBuilder::build_with_file`] or
/// [`TorrentBuilder::build_with_dir`] makes a [`Torrent`].  Setters
/// return an updated snapshot; validation happens when building.
#[derive(Debug, PartialEq, Eq, Default)]
pub struct TorrentBuilder {
    pub announce: String,
    pub announce_list: Option<AnnounceList>,
    pub name: Option<String>,
    pub path: FilePath,
    pub piece_length: Integer,
    pub extra_fields: Option<Dictionary>,
    pub extra_info_fields: Option<Dictionary>,
    pub is_private: bool,
}

/// A tier list is acceptable when it is non-empty, each tier is
/// non-empty, and every URL in it is non-empty.
pub open spec fn announce_list_ok(al: Seq<Seq<Seq<char>>>) -> bool {
    &&& al.len() > 0
    &&& forall|i: int| 0 <= i < al.len() ==> (#[trigger] al[i]).len() > 0
    &&& forall|i: int, j: int|
        0 <= i < al.len() && 0 <= j < al[i].len() ==> (#[trigger] al[i][j]).len() > 0
}

/// A path component a build refuses: `..`, or hidden (leading `.`).
pub open spec fn component_rejected(c: Seq<char>) -> bool {
    c =~= seq!['.', '.'] || (c.len() > 0 && c[0] == '.')
}

/// The whole builder path is acceptable when no component is rejected
/// and the path is absolute.
pub open spec fn path_shape_ok(p: FilePathView) -> bool {
    &&& forall|i: int| 0 <= i < p.components.len() ==> !component_rejected(#[trigger] p.components[i])
    &&& p.absolute
}

/// Powers of two.
pub open spec fn pow2(e: nat) -> int
    decreases e,
{
    if e == 0 {
        1
    } else {
        2 * pow2((e - 1) as nat)
    }
}

/// `pow2` grows strictly.
pub proof fn lemma_pow2_increases(a: nat, b: nat)
    requires
        a < b,
    ensures
        pow2(a) < pow2(b),
    decreases b,
{
    lemma_pow2_pos(a);
    if a + 1 < b {
        lemma_pow2_increases(a, (b - 1) as nat);
    }
}

pub proof fn lemma_pow2_pos(e: nat)
    ensures
        pow2(e) >= 1,
    decreases e,
{
    if e > 0 {
        lemma_pow2_pos((e - 1) as nat);
    }
}

/// A valid piece length: positive and an exact power of two.
pub open spec fn piece_length_ok(pl: int) -> bool {
    exists|e: nat| pl == pow2(e)
}

/// Every key of a dictionary is non-empty.
pub open spec fn keys_nonempty(es: Seq<(Seq<char>, BencodeValue)>) -> bool {
    forall|i: int| 0 <= i < es.len() ==> (#[trigger] es[i].0).len() > 0
}

/// A provided extra-field dictionary must have no empty key.  (An empty
/// dictionary is a programmer error and is excluded up front.)
pub open spec fn extra_fields_keys_ok(d: Option<Seq<(Seq<char>, BencodeValue)>>) -> bool {
    d matches Some(es) ==> keys_nonempty(es)
}

/// An extra-field dictionary, when present, is not empty.
pub open spec fn extra_fields_present_nonempty(d: Option<Dictionary>) -> bool {
    d matches Some(es) ==> es@.len() > 0
}

impl TorrentBuilder {
    /// Start a builder with the required fields.  Nothing is validated
    /// here; an invalid value makes the build fail later.
    pub fn new(announce: String, path: &str, piece_length: Integer) -> (r: TorrentBuilder)
        ensures
            r.announce == announce,
            r.announce_list is None,
            r.name is None,
            r.path@.absolute == (path@.len() > 0 && path@[0] == '/'),
            r.path@.components == path_components_of(path@),
            r.piece_length == piece_length,
            r.extra_fields is None,
            r.extra_info_fields is None,
            !r.is_private,
    {
        TorrentBuilder {
            announce,
            announce_list: None,
            name: None,
            path: FilePath::new(path),
            piece_length,
            extra_fields: None,
            extra_info_fields: None,
            is_private: false,
        }
    }

    /// Replace the `announce` URL.
    pub fn set_announce(self, announce: String) -> (r: TorrentBuilder)
        ensures
            r == (TorrentBuilder { announce, ..self }),
    {
        TorrentBuilder { announce, ..self }
    }

    /// Replace the `announce-list` tiers.
    pub fn set_announce_list(self, announce_list: AnnounceList) -> (r: TorrentBuilder)
        ensures
            r == (TorrentBuilder { announce_list: Some(announce_list), ..self }),
    {
        TorrentBuilder { announce_list: Some(announce_list), ..self }
    }

    /// Replace the torrent's name.
    pub fn set_name(self, name: String) -> (r: TorrentBuilder)
        ensures
            r == (TorrentBuilder { name: Some(name), ..self }),
    {
        TorrentBuilder { name: Some(name), ..self }
    }

    /// Replace the source path.
    pub fn set_path(self, path: &str) -> (r: TorrentBuilder)
        ensures
            r.path@.absolute == (path@.len() > 0 && path@[0] == '/'),
            r.path@.components == path_components_of(path@),
            r == (TorrentBuilder { path: r.path, ..self }),
    {
        TorrentBuilder { path: FilePath::new(path), ..self }
    }

    /// Replace the piece length.
    pub fn set_piece_length(self, piece_length: Integer) -> (r: TorrentBuilder)
        ensures
            r == (TorrentBuilder { piece_length, ..self }),
    {
        TorrentBuilder { piece_length, ..self }
    }

    /// Add one extra field to the root dictionary; an equal key is
    /// overridden.
    pub fn add_extra_field(self, key: String, val: BencodeElem) -> (r: TorrentBuilder)
        ensures
            view_opt(r.extra_fields) == Some(
                spec_dict_insert(opt_entries(self.extra_fields), key@, val@),
            ),
            r == (TorrentBuilder { extra_fields: r.extra_fields, ..self }),
    {
        let TorrentBuilder {
            announce,
            announce_list,
            name,
            path,
            piece_length,
            extra_fields,
            extra_info_fields,
            is_private,
        } = self;
        let mut es: Dictionary = match extra_fields {
            Some(es) => es,
            None => {
                let v: Dictionary = Vec::new();
                proof {
                    assert(view_dict(v@) =~= Seq::<(Seq<char>, BencodeValue)>::empty());
                }
                v
            },
        };
        dict_insert(&mut es, key, val);
        TorrentBuilder {
            announce,
            announce_list,
            name,
            path,
            piece_length,
            extra_fields: Some(es),
            extra_info_fields,
            is_private,
        }
    }

    /// Add one extra field to the `info` dictionary; an equal key is
    /// overridden.
    pub fn add_extra_info_field(self, key: String, val: BencodeElem) -> (r: TorrentBuilder)
        ensures
            view_opt(r.extra_info_fields) == Some(
                spec_dict_insert(opt_entries(self.extra_info_fields), key@, val@),
            ),
            r == (TorrentBuilder { extra_info_fields: r.extra_info_fields, ..self }),
    {
        let TorrentBuilder {
            announce,
            announce_list,
            name,
            path,
            piece_length,
            extra_fields,
            extra_info_fields,
            is_private,
        } = self;
        let mut es: Dictionary = match extra_info_fields {
            Some(es) => es,
            None => {
                let v: Dictionary = Vec::new();
                proof {
                    assert(view_dict(v@) =~= Seq::<(Seq<char>, BencodeValue)>::empty());
                }
                v
            },
        };
        dict_insert(&mut es, key, val);
        TorrentBuilder {
            announce,
            announce_list,
            name,
            path,
            piece_length,
            extra_fields,
            extra_info_fields: Some(es),
            is_private,
        }
    }

    /// Mark the torrent private or public.
    pub fn set_privacy(self, is_private: bool) -> (r: TorrentBuilder)
        ensures
            r == (TorrentBuilder { is_private, ..self }),
    {
        TorrentBuilder { is_private, ..self }
    }
}

/// The entries of an optional dictionary, empty when absent.
pub open spec fn opt_entries(d: Option<Dictionary>) -> Seq<(Seq<char>, BencodeValue)> {
    match d {
        None => Seq::empty(),
        Some(es) => view_dict(es@),
    }
}

/// The entries of an optional dictionary, kept optional.
pub open spec fn view_opt(d: Option<Dictionary>) -> Option<Seq<(Seq<char>, BencodeValue)>> {
    match d {
        None => None,
        Some(es) => Some(view_dict(es@)),
    }
}

} // verus!

verus! {

impl TorrentBuilder {
    /// The `announce` URL must be non-empty.
    pub fn validate_announce(&self) -> (r: Result<(), LavaError>)
        ensures
            r is Ok <==> self.announce@.len() > 0,
            r is Err ==> r->Err_0.kind == ErrorKind::TorrentBuilderFailure,
    {
        if self.announce.as_str().is_empty() {
            Err(
                LavaError::new(
                    ErrorKind::TorrentBuilderFailure,
                    "`announce` is present but its length is 0",
                ),
            )
        } else {
            Ok(())
        }
    }

    /// A tier list, when set, must be non-empty, with non-empty tiers of
    /// non-empty URLs.
    #[verifier::loop_isolation(false)]
    pub fn validate_announce_list(&self) -> (r: Result<(), LavaError>)
        ensures
            r is Ok <==> (self.announce_list matches Some(al) ==> announce_list_ok(
                al.deep_view(),
            )),
            r is Err ==> r->Err_0.kind == ErrorKind::TorrentBuilderFailure,
    {
        match &self.announce_list {
            None => Ok(()),
            Some(al) => {
                let ghost alv = al.deep_view();
                if al.len() == 0 {
                    return Err(
                        LavaError::new(
                            ErrorKind::TorrentBuilderFailure,
                            "`announce_list` is present but empty",
                        ),
                    );
                }
                let n: usize = al.len();
                let mut i: usize = 0;
                while i < n
                    invariant
                        0 <= i <= n,
                        n == al@.len(),
                        forall|a: int| 0 <= a < i ==> (#[trigger] alv[a]).len() > 0,
                        forall|a: int, b: int|
                            0 <= a < i && 0 <= b < alv[a].len() ==> (#[trigger] alv[a][b]).len()
                                > 0,
                    decreases n - i,
                {
                    let tier = &al[i];
                    proof {
                        assert(alv[i as int] == tier.deep_view());
                    }
                    if tier.len() == 0 {
                        return Err(
                            LavaError::new(
                                ErrorKind::TorrentBuilderFailure,
                                "`announce_list` has an empty tier",
                            ),
                        );
                    }
                    let m: usize = tier.len();
                    let mut j: usize = 0;
                    while j < m
                        invariant
                            0 <= j <= m,
                            m == tier@.len(),
                            alv[i as int] == tier.deep_view(),
                            forall|b: int|
                                0 <= b < j ==> (#[trigger] tier.deep_view()[b]).len() > 0,
                        decreases m - j,
                    {
                        proof {
                            assert(tier.deep_view()[j as int] == tier@[j as int]@);
                        }
                        if tier[j].as_str().is_empty() {
                            return Err(
                                LavaError::new(
                                    ErrorKind::TorrentBuilderFailure,
                                    "`announce_list` has a tier with a 0-length url",
                                ),
                            );
                        }
                        j = j + 1;
                    }
                    i = i + 1;
                }
                Ok(())
            },
        }
    }

    /// The name, when set, must be non-empty.
    pub fn validate_name(&self) -> (r: Result<(), LavaError>)
        ensures
            r is Ok <==> (self.name matches Some(n) ==> n@.len() > 0),
            r is Err ==> r->Err_0.kind == ErrorKind::TorrentBuilderFailure,
    {
        match &self.name {
            None => Ok(()),
            Some(n) => {
                if n.as_str().is_empty() {
                    Err(
                        LavaError::new(
                            ErrorKind::TorrentBuilderFailure,
                            "`name` is present but its length is 0",
                        ),
                    )
                } else {
                    Ok(())
                }
            },
        }
    }

    /// The path must have no `..` or hidden component, must be absolute,
    /// and must point at something; whether it does, the caller's I/O
    /// layer reports in `path_exists`.
    #[verifier::loop_isolation(false)]
    pub fn validate_path(&self, path_exists: bool) -> (r: Result<(), LavaError>)
        ensures
            r is Ok <==> path_shape_ok(self.path@) && path_exists,
            r is Err ==> r->Err_0.kind == ErrorKind::TorrentBuilderFailure,
    {
        let n: usize = self.path.components.len();
        let ghost pv = self.path@;
        let mut i: usize = 0;
        while i < n
            invariant
                0 <= i <= n,
                n == self.path.components@.len(),
                forall|t: int| 0 <= t < i ==> !component_rejected(#[trigger] pv.components[t]),
            decreases n - i,
        {
            let comp = &self.path.components[i];
            proof {
                assert(pv.components[i as int] == comp@);
            }
            let len = vstd::string::StrSliceExecFns::unicode_len(comp.as_str());
            if len > 0 && vstd::string::StrSliceExecFns::get_char(comp.as_str(), 0) == '.' {
                if len == 2 && vstd::string::StrSliceExecFns::get_char(comp.as_str(), 1) == '.' {
                    return Err(
                        LavaError::new(
                            ErrorKind::TorrentBuilderFailure,
                            "the path contains a component exactly matching `..`",
                        ),
                    );
                }
                return Err(
                    LavaError::new(
                        ErrorKind::TorrentBuilderFailure,
                        "the path contains a hidden component",
                    ),
                );
            }
            proof {
                if component_rejected(comp@) {
                    assert(comp@.len() > 0 && comp@[0] == '.');
                }
            }
            i = i + 1;
        }
        if !self.path.absolute {
            return Err(
                LavaError::new(ErrorKind::TorrentBuilderFailure, "the path is not absolute"),
            );
        }
        if !path_exists {
            return Err(
                LavaError::new(
                    ErrorKind::TorrentBuilderFailure,
                    "the path does not point to anything",
                ),
            );
        }
        Ok(())
    }

    /// The piece length must be a positive power of two.
    #[verifier::loop_isolation(false)]
    pub fn validate_piece_length(&self) -> (r: Result<(), LavaError>)
        ensures
            r is Ok <==> piece_length_ok(self.piece_length as int),
            r is Err ==> r->Err_0.kind == ErrorKind::TorrentBuilderFailure,
    {
        let pl = self.piece_length;
        if pl <= 0 {
            proof {
                assert forall|e: nat| pl as int != pow2(e) by {
                    lemma_pow2_pos(e);
                }
            }
            return Err(
                LavaError::new(ErrorKind::TorrentBuilderFailure, "`piece_length` is not positive"),
            );
        }
        let mut p: i64 = 1;
        let ghost mut e: nat = 0;
        while p < pl
            invariant
                1 <= p <= pl,
                p == pow2(e),
                forall|e2: nat| e2 < e ==> pow2(e2) < pl,
            decreases pl - p,
        {
            if p > pl / 2 {
                proof {
                    assert(2 * p > pl);
                    assert forall|e2: nat| pl as int != pow2(e2) by {
                        if e2 < e {
                        } else if e2 == e {
                            assert(pow2(e2) == p);
                        } else {
                            lemma_pow2_increases(e, e2);
                            assert(pow2(e2) >= pow2((e + 1) as nat)) by {
                                if e + 1 < e2 {
                                    lemma_pow2_increases((e + 1) as nat, e2);
                                }
                            }
                            assert(pow2((e + 1) as nat) == 2 * p);
                        }
                    }
                }
                return Err(
                    LavaError::new(
                        ErrorKind::TorrentBuilderFailure,
                        "`piece_length` is not a power of 2",
                    ),
                );
            }
            proof {
                assert forall|e2: nat| e2 < e + 1 implies pow2(e2) < pl by {
                    if e2 < e {
                    } else {
                        assert(pow2(e2) == p);
                    }
                }
                e = e + 1;
            }
            p = p * 2;
        }
        proof {
            assert(p == pl);
            assert(pl as int == pow2(e));
        }
        Ok(())
    }

    /// Extra root fields, when provided, must carry no empty key.
    #[verifier::loop_isolation(false)]
    pub fn validate_extra_fields(&self) -> (r: Result<(), LavaError>)
        requires
            extra_fields_present_nonempty(self.extra_fields),
        ensures
            r is Ok <==> extra_fields_keys_ok(view_opt(self.extra_fields)),
            r is Err ==> r->Err_0.kind == ErrorKind::TorrentBuilderFailure,
    {
        match &self.extra_fields {
            None => Ok(()),
            Some(es) => {
                let r = validate_keys_nonempty(es);
                proof {
                    assert(view_opt(self.extra_fields) == Some(view_dict(es@)));
                }
                r
            },
        }
    }

    /// Extra `info` fields, when provided, must carry no empty key.
    #[verifier::loop_isolation(false)]
    pub fn validate_extra_info_fields(&self) -> (r: Result<(), LavaError>)
        requires
            extra_fields_present_nonempty(self.extra_info_fields),
        ensures
            r is Ok <==> extra_fields_keys_ok(view_opt(self.extra_info_fields)),
            r is Err ==> r->Err_0.kind == ErrorKind::TorrentBuilderFailure,
    {
        match &self.extra_info_fields {
            None => Ok(()),
            Some(es) => {
                let r = validate_keys_nonempty(es);
                proof {
                    assert(view_opt(self.extra_info_fields) == Some(view_dict(es@)));
                }
                r
            },
        }
    }
}

/// Every key of the dictionary is non-empty.
#[verifier::loop_isolation(false)]
fn validate_keys_nonempty(es: &Dictionary) -> (r: Result<(), LavaError>)
    ensures
        r is Ok <==> keys_nonempty(view_dict(es@)),
        r is Err ==> r->Err_0.kind == ErrorKind::TorrentBuilderFailure,
{
    proof {
        crate::bencode::lemma_view_dict_index(es@);
    }
    let n: usize = es.len();
    let mut i: usize = 0;
    while i < n
        invariant
            0 <= i <= n,
            n == es@.len(),
            forall|t: int| 0 <= t < i ==> (#[trigger] view_dict(es@)[t].0).len() > 0,
        decreases n - i,
    {
        let entry = &es[i];
        if entry.0.as_str().is_empty() {
            proof {
                assert(view_dict(es@)[i as int].0 == entry.0@);
            }
            return Err(
                LavaError::new(
                    ErrorKind::TorrentBuilderFailure,
                    "the dictionary contains a 0-length key",
                ),
            );
        }
        proof {
            assert(view_dict(es@)[i as int].0 == entry.0@);
        }
        i = i + 1;
    }
    Ok(())
}

} // verus!

verus! {

use vstd::utf8::encode_utf8;
use crate::strings::{str_to_bytes, bytes_lt_exec};
use crate::bencode::{bytes_lt, lemma_bytes_lt_trichotomy};

/// The canonical byte string of a relative path: its components'
/// UTF-8 bytes joined by `/`.
pub open spec fn path_key_spec(p: Seq<Seq<char>>) -> Seq<u8>
    decreases p.len(),
{
    if p.len() == 0 {
        Seq::empty()
    } else if p.len() == 1 {
        encode_utf8(p[0])
    } else {
        path_key_spec(p.drop_last()) + seq![0x2fu8] + encode_utf8(p.last())
    }
}

/// The canonical byte string of a path, computed.
#[verifier::loop_isolation(false)]
pub fn path_key(path: &Vec<String>) -> (r: Vec<u8>)
    ensures
        r@ == path_key_spec(path.deep_view()),
{
    let ghost pv = path.deep_view();
    let n: usize = path.len();
    let mut out: Vec<u8> = Vec::new();
    let mut i: usize = 0;
    proof {
        assert(pv.take(0) =~= Seq::<Seq<char>>::empty());
        assert(out@ =~= path_key_spec(pv.take(0)));
    }
    while i < n
        invariant
            0 <= i <= n,
            n == path@.len(),
            pv.len() == n,
            out@ == path_key_spec(pv.take(i as int)),
        decreases n - i,
    {
        proof {
            assert(pv[i as int] == path@[i as int]@);
        }
        if i > 0 {
            out.push(0x2f);
        }
        let kb = str_to_bytes(path[i].as_str());
        crate::bencode::push_bytes(kb.as_slice(), &mut out);
        proof {
            assert(pv.take(i + 1).drop_last() =~= pv.take(i as int));
            assert(pv.take(i + 1).last() == pv[i as int]);
            if i == 0 {
                assert(out@ =~= path_key_spec(pv.take(1)));
            } else {
                assert(out@ =~= path_key_spec(pv.take(i + 1)));
            }
        }
        i = i + 1;
    }
    proof {
        assert(pv.take(n as int) =~= pv);
    }
    out
}

/// The sort key of one directory entry.
pub open spec fn entry_key(e: (Seq<Seq<char>>, Seq<u8>)) -> Seq<u8> {
    path_key_spec(e.0)
}

/// Insert an entry before the first strictly larger key; equal keys stay
/// in arrival order.
pub open spec fn sorted_insert_entry(
    es: Seq<(Seq<Seq<char>>, Seq<u8>)>,
    e: (Seq<Seq<char>>, Seq<u8>),
) -> Seq<(Seq<Seq<char>>, Seq<u8>)>
    decreases es,
{
    if es.len() == 0 {
        seq![e]
    } else if bytes_lt(entry_key(e), entry_key(es[0])) {
        seq![e] + es
    } else {
        seq![es[0]] + sorted_insert_entry(es.drop_first(), e)
    }
}

/// The entries ordered by their path keys, byte-wise.
pub open spec fn spec_sort_entries(es: Seq<(Seq<Seq<char>>, Seq<u8>)>) -> Seq<
    (Seq<Seq<char>>, Seq<u8>),
>
    decreases es,
{
    if es.len() == 0 {
        Seq::empty()
    } else {
        sorted_insert_entry(spec_sort_entries(es.drop_last()), es.last())
    }
}

/// `sorted_insert_entry` lands at the first position whose key is
/// strictly larger.
pub proof fn lemma_sorted_insert_entry_at(
    es: Seq<(Seq<Seq<char>>, Seq<u8>)>,
    e: (Seq<Seq<char>>, Seq<u8>),
    pos: int,
)
    requires
        0 <= pos <= es.len(),
        forall|t: int| 0 <= t < pos ==> !bytes_lt(entry_key(e), entry_key(#[trigger] es[t])),
        pos < es.len() ==> bytes_lt(entry_key(e), entry_key(es[pos])),
    ensures
        sorted_insert_entry(es, e) == es.take(pos) + seq![e] + es.skip(pos),
    decreases es,
{
    if es.len() == 0 {
        assert(sorted_insert_entry(es, e) =~= es.take(0) + seq![e] + es.skip(0));
    } else if pos == 0 {
        assert(sorted_insert_entry(es, e) == seq![e] + es);
        assert(seq![e] + es =~= es.take(0) + seq![e] + es.skip(0));
    } else {
        let t = es.drop_first();
        assert forall|s: int| 0 <= s < pos - 1 implies !bytes_lt(
            entry_key(e),
            entry_key(#[trigger] t[s]),
        ) by {
            assert(t[s] == es[s + 1]);
        }
        assert(pos - 1 < t.len() ==> t[pos - 1] == es[pos]);
        lemma_sorted_insert_entry_at(t, e, pos - 1);
        assert(sorted_insert_entry(es, e) == seq![es[0]] + sorted_insert_entry(t, e));
        assert(seq![es[0]] + (t.take(pos - 1) + seq![e] + t.skip(pos - 1)) =~= es.take(pos)
            + seq![e] + es.skip(pos));
    }
}

/// Insert one directory entry into a vector kept sorted by path key.
fn insert_entry_sorted(
    es: &mut Vec<(Vec<String>, Vec<u8>)>,
    e: (Vec<String>, Vec<u8>),
)
    ensures
        view_entries(final(es)@) == sorted_insert_entry(
            view_entries(old(es)@),
            (e.0.deep_view(), e.1@),
        ),
{
    let ghost gs = view_entries(old(es)@);
    let ghost ev = (e.0.deep_view(), e.1@);
    proof {
        lemma_view_entries_index(old(es)@);
    }
    let ke = path_key(&e.0);
    let len: usize = es.len();
    let mut pos: usize = 0;
    loop
        invariant
            0 <= pos <= len,
            es@ == old(es)@,
            len == old(es)@.len(),
            gs == view_entries(old(es)@),
            gs.len() == len,
            ke@ == entry_key(ev),
            forall|t: int|
                0 <= t < len ==> #[trigger] gs[t] == (old(es)@[t].0.deep_view(), old(es)@[t].1@),
            forall|t: int| 0 <= t < pos ==> !bytes_lt(entry_key(ev), entry_key(#[trigger] gs[t])),
        ensures
            0 <= pos <= len,
            es@ == old(es)@,
            forall|t: int| 0 <= t < pos ==> !bytes_lt(entry_key(ev), entry_key(#[trigger] gs[t])),
            pos < len ==> bytes_lt(entry_key(ev), entry_key(gs[pos as int])),
        decreases len - pos,
    {
        if pos >= len {
            break;
        }
        let entry = &es[pos];
        let kc = path_key(&entry.0);
        proof {
            assert(gs[pos as int].0 == entry.0.deep_view());
        }
        if bytes_lt_exec(ke.as_slice(), kc.as_slice()) {
            break;
        }
        pos = pos + 1;
    }
    proof {
        lemma_sorted_insert_entry_at(gs, ev, pos as int);
    }
    es.insert(pos, e);
    proof {
        lemma_view_entries_index(es@);
        assert forall|t: int| 0 <= t < es@.len() implies view_entries(es@)[t] == (gs.take(
            pos as int,
        ) + seq![ev] + gs.skip(pos as int))[t] by {
            if t < pos {
                assert(es@[t] == old(es)@[t]);
            } else if t > pos {
                assert(es@[t] == old(es)@[t - 1]);
            } else {
                assert(es@[t] == e);
            }
        }
        assert(view_entries(es@) =~= gs.take(pos as int) + seq![ev] + gs.skip(pos as int));
    }
}

/// The mathematical value of a list of directory entries.
pub open spec fn view_entries(es: Seq<(Vec<String>, Vec<u8>)>) -> Seq<(Seq<Seq<char>>, Seq<u8>)>
    decreases es,
{
    if es.len() == 0 {
        Seq::empty()
    } else {
        seq![(es[0].0.deep_view(), es[0].1@)] + view_entries(es.drop_first())
    }
}

pub broadcast proof fn lemma_view_entries_index(es: Seq<(Vec<String>, Vec<u8>)>)
    ensures
        (#[trigger] view_entries(es)).len() == es.len(),
        forall|i: int|
            0 <= i < es.len() ==> view_entries(es)[i] == (es[i].0.deep_view(), es[i].1@),
    decreases es,
{
    if es.len() > 0 {
        lemma_view_entries_index(es.drop_first());
    }
}

} // verus!

verus! {

use crate::hash::{sha1_of, spec_piece, piece_count, concat_all, hash_pieces};

/// Every configured value passes validation.
pub open spec fn config_ok(b: TorrentBuilder) -> bool {
    &&& b.announce@.len() > 0
    &&& (b.announce_list matches Some(al) ==> announce_list_ok(al.deep_view()))
    &&& (b.name matches Some(n) ==> n@.len() > 0)
    &&& path_shape_ok(b.path@)
    &&& piece_length_ok(b.piece_length as int)
    &&& extra_fields_keys_ok(view_opt(b.extra_fields))
    &&& extra_fields_keys_ok(view_opt(b.extra_info_fields))
}

/// A name can be determined: one was set, or the path has a last
/// component to take.
pub open spec fn name_available(b: TorrentBuilder) -> bool {
    b.name is Some || b.path@.components.len() > 0
}

/// The name the built torrent carries.
pub open spec fn expected_name(b: TorrentBuilder) -> Seq<char> {
    match b.name {
        Some(n) => n@,
        None => b.path@.components.last(),
    }
}

/// The `info` extras of the built torrent: unchanged, or with
/// `private = 1` written in.
pub open spec fn spliced_info_fields(b: TorrentBuilder) -> Option<
    Seq<(Seq<char>, BencodeValue)>,
> {
    if b.is_private {
        Some(spec_dict_insert(opt_entries(b.extra_info_fields), "private"@, BencodeValue::Integer(1)))
    } else {
        view_opt(b.extra_info_fields)
    }
}

/// The piece length fits the platform's size type.
pub open spec fn piece_length_fits(b: TorrentBuilder) -> bool {
    b.piece_length <= usize::MAX
}

impl TorrentBuilder {
    /// Run every validation.
    fn validate_all(&self, path_exists: bool) -> (r: Result<(), LavaError>)
        requires
            extra_fields_present_nonempty(self.extra_fields),
            extra_fields_present_nonempty(self.extra_info_fields),
        ensures
            r is Ok <==> config_ok(*self) && path_exists,
            r is Err ==> r->Err_0.kind == ErrorKind::TorrentBuilderFailure,
    {
        match self.validate_announce() {
            Err(e) => {
                return Err(e);
            },
            _ => {},
        }
        match self.validate_announce_list() {
            Err(e) => {
                return Err(e);
            },
            _ => {},
        }
        match self.validate_name() {
            Err(e) => {
                return Err(e);
            },
            _ => {},
        }
        match self.validate_path(path_exists) {
            Err(e) => {
                return Err(e);
            },
            _ => {},
        }
        match self.validate_piece_length() {
            Err(e) => {
                return Err(e);
            },
            _ => {},
        }
        match self.validate_extra_fields() {
            Err(e) => {
                return Err(e);
            },
            _ => {},
        }
        match self.validate_extra_info_fields() {
            Err(e) => {
                return Err(e);
            },
            _ => {},
        }
        Ok(())
    }

    /// The torrent's name: the one set, else the last path component.
    fn resolve_name(&self) -> (r: Result<String, LavaError>)
        ensures
            r is Ok <==> name_available(*self),
            r matches Ok(n) ==> n@ == expected_name(*self),
            r is Err ==> r->Err_0.kind == ErrorKind::TorrentBuilderFailure,
    {
        match &self.name {
            Some(n) => Ok(n.clone()),
            None => {
                let count = self.path.components.len();
                if count == 0 {
                    return Err(
                        LavaError::new(
                            ErrorKind::TorrentBuilderFailure,
                            "the path has no component to name the torrent after",
                        ),
                    );
                }
                let n = self.path.components[count - 1].clone();
                proof {
                    assert(self.path@.components[count - 1] == self.path.components@[count
                        - 1]@);
                }
                Ok(n)
            },
        }
    }

    /// The piece length as a size, when the platform can hold it.
    fn resolve_piece_length(&self) -> (r: Result<usize, LavaError>)
        requires
            piece_length_ok(self.piece_length as int),
        ensures
            r is Ok <==> piece_length_fits(*self),
            r matches Ok(pl) ==> pl == self.piece_length && pl > 0,
            r is Err ==> r->Err_0.kind == ErrorKind::IOError,
    {
        proof {
            let e = choose|e: nat| self.piece_length as int == pow2(e);
            lemma_pow2_pos(e);
        }
        if (self.piece_length as u64) > (usize::MAX as u64) {
            return Err(
                LavaError::new(ErrorKind::IOError, "`piece_length` does not fit a size"),
            );
        }
        Ok(self.piece_length as usize)
    }

    /// Write `private = 1` into the `info` extras when asked to.
    fn splice_private(is_private: bool, extra_info_fields: Option<Dictionary>) -> (r: Option<
        Dictionary,
    >)
        ensures
            view_opt(r) == (if is_private {
                Some(
                    spec_dict_insert(
                        (match extra_info_fields {
                            None => Seq::empty(),
                            Some(es) => view_dict(es@),
                        }),
                        "private"@,
                        BencodeValue::Integer(1),
                    ),
                )
            } else {
                view_opt(extra_info_fields)
            }),
    {
        if is_private {
            let mut es: Dictionary = match extra_info_fields {
                Some(es) => es,
                None => {
                    let v: Dictionary = Vec::new();
                    proof {
                        assert(view_dict(v@) =~= Seq::<(Seq<char>, BencodeValue)>::empty());
                    }
                    v
                },
            };
            dict_insert(&mut es, "private".to_owned(), BencodeElem::Integer(1));
            Some(es)
        } else {
            extra_info_fields
        }
    }

    /// Build a single-file torrent from the file's content.  The
    /// caller's I/O layer reads the file and reports in `path_exists`
    /// whether the configured path points at anything.
    pub fn build_with_file(self, content: Vec<u8>, path_exists: bool) -> (r: Result<
        Torrent,
        LavaError,
    >)
        requires
            extra_fields_present_nonempty(self.extra_fields),
            extra_fields_present_nonempty(self.extra_info_fields),
        ensures
            r is Ok <==> config_ok(self) && path_exists && name_available(self)
                && piece_length_fits(self) && content@.len() <= i64::MAX,
            r matches Ok(t) ==> ({
                &&& t.announce == self.announce
                &&& t.announce_list == self.announce_list
                &&& t.name@ == expected_name(self)
                &&& t.piece_length == self.piece_length
                &&& t.length as int == content@.len()
                &&& t.files is None
                &&& t.pieces@.len() == piece_count(content@.len() as int, self.piece_length as int)
                &&& t.pieces@.len() == piece_count(t.length as int, t.piece_length as int)
                &&& (forall|i: int|
                    0 <= i < t.pieces@.len() ==> (#[trigger] t.pieces@[i])@ == sha1_of(
                        spec_piece(content@, self.piece_length as int, i),
                    ))
                &&& (forall|i: int| 0 <= i < t.pieces@.len() ==> (#[trigger] t.pieces@[i])@.len() == 20)
                &&& t.extra_fields == self.extra_fields
                &&& view_opt(t.extra_info_fields) == spliced_info_fields(self)
            }),
            r matches Err(e) ==> (e.kind == ErrorKind::TorrentBuilderFailure || e.kind
                == ErrorKind::IOError),
            r matches Err(e) ==> (config_ok(self) && path_exists && name_available(self)
                ==> e.kind == ErrorKind::IOError),
            r matches Err(e) ==> (!(config_ok(self) && path_exists && name_available(self))
                ==> e.kind == ErrorKind::TorrentBuilderFailure),
    {
        match self.validate_all(path_exists) {
            Err(e) => {
                return Err(e);
            },
            _ => {},
        }
        let name = match self.resolve_name() {
            Err(e) => {
                return Err(e);
            },
            Ok(n) => n,
        };
        let pl = match self.resolve_piece_length() {
            Err(e) => {
                return Err(e);
            },
            Ok(pl) => pl,
        };
        if (content.len() as u64) > (i64::MAX as u64) {
            return Err(
                LavaError::new(ErrorKind::IOError, "the file is longer than a length field holds"),
            );
        }
        let length: i64 = content.len() as i64;
        let ghost content_view = content@;
        let mut cv: Vec<Vec<u8>> = Vec::new();
        cv.push(content);
        proof {
            assert(cv.deep_view().len() == 1);
            assert(cv.deep_view()[0] =~= content_view);
            assert(cv.deep_view().drop_last() =~= Seq::<Seq<u8>>::empty());
            assert(concat_all(Seq::<Seq<u8>>::empty()) == Seq::<u8>::empty());
            assert(cv.deep_view().last() =~= content_view);
            assert(concat_all(cv.deep_view()) =~= content_view);
        }
        let pieces = hash_pieces(&cv, pl);
        let TorrentBuilder {
            announce,
            announce_list,
            name: _,
            path: _,
            piece_length,
            extra_fields,
            extra_info_fields,
            is_private,
        } = self;
        let extra_info_fields = TorrentBuilder::splice_private(is_private, extra_info_fields);
        Ok(
            Torrent {
                announce,
                announce_list,
                length,
                files: None,
                name,
                piece_length,
                pieces,
                extra_fields,
                extra_info_fields,
            },
        )
    }
}

} // verus!

verus! {

/// Sum of the entries' content lengths.
pub open spec fn total_size(sv: Seq<(Seq<Seq<char>>, Seq<u8>)>) -> int
    decreases sv,
{
    if sv.len() == 0 {
        0
    } else {
        total_size(sv.drop_last()) + sv.last().1.len()
    }
}

/// A size total is never negative.
pub proof fn lemma_total_size_nonneg(sv: Seq<(Seq<Seq<char>>, Seq<u8>)>)
    ensures
        total_size(sv) >= 0,
    decreases sv,
{
    if sv.len() > 0 {
        lemma_total_size_nonneg(sv.drop_last());
    }
}

pub proof fn lemma_total_size_take(sv: Seq<(Seq<Seq<char>>, Seq<u8>)>, k: int)
    requires
        0 <= k < sv.len(),
    ensures
        total_size(sv.take(k + 1)) == total_size(sv.take(k)) + sv[k].1.len(),
    decreases sv,
{
    if k + 1 == sv.len() {
        assert(sv.take(k + 1) =~= sv);
        assert(sv.take(k) =~= sv.drop_last());
    } else {
        lemma_total_size_take(sv.drop_last(), k);
        assert(sv.drop_last().take(k + 1) =~= sv.take(k + 1));
        assert(sv.drop_last().take(k) =~= sv.take(k));
    }
}

/// A prefix never outweighs the whole.
pub proof fn lemma_total_size_prefix(sv: Seq<(Seq<Seq<char>>, Seq<u8>)>, k: int)
    requires
        0 <= k <= sv.len(),
    ensures
        total_size(sv.take(k)) <= total_size(sv),
    decreases sv.len() - k,
{
    if k < sv.len() {
        lemma_total_size_take(sv, k);
        lemma_total_size_prefix(sv, k + 1);
    } else {
        assert(sv.take(k) =~= sv);
    }
}

/// The concatenated contents are exactly as long as the lengths add up
/// to.
pub proof fn lemma_concat_len_eq_total(sv: Seq<(Seq<Seq<char>>, Seq<u8>)>)
    ensures
        concat_all(sv.map_values(|e: (Seq<Seq<char>>, Seq<u8>)| e.1)).len() == total_size(sv),
    decreases sv,
{
    let f = |e: (Seq<Seq<char>>, Seq<u8>)| e.1;
    if sv.len() == 0 {
        assert(sv.map_values(f) =~= Seq::<Seq<u8>>::empty());
    } else {
        lemma_concat_len_eq_total(sv.drop_last());
        assert(sv.drop_last().map_values(f) =~= sv.map_values(f).drop_last());
        assert(sv.map_values(f).last() == sv.last().1);
    }
}

/// A file path below the root is clean: no component is empty or equal
/// to `..`.
pub open spec fn path_clean(p: Seq<Seq<char>>) -> bool {
    forall|j: int| 0 <= j < p.len() ==> (#[trigger] p[j]).len() > 0 && p[j] != seq!['.', '.']
}

/// Every entry the directory walk hands over has a clean path.
pub open spec fn entry_paths_ok(es: Seq<(Seq<Seq<char>>, Seq<u8>)>) -> bool {
    forall|i: int| 0 <= i < es.len() ==> path_clean((#[trigger] es[i]).0)
}

/// Inserting keeps an element-wise property, and grows the list by one.
pub proof fn lemma_sorted_insert_all(
    es: Seq<(Seq<Seq<char>>, Seq<u8>)>,
    e: (Seq<Seq<char>>, Seq<u8>),
    p: spec_fn((Seq<Seq<char>>, Seq<u8>)) -> bool,
)
    requires
        forall|i: int| 0 <= i < es.len() ==> p(#[trigger] es[i]),
        p(e),
    ensures
        sorted_insert_entry(es, e).len() == es.len() + 1,
        forall|i: int|
            0 <= i < sorted_insert_entry(es, e).len() ==> p(#[trigger] sorted_insert_entry(es, e)[i]),
    decreases es,
{
    let out = sorted_insert_entry(es, e);
    if es.len() == 0 {
        assert(out == seq![e]);
        assert(out[0] == e);
    } else if bytes_lt(entry_key(e), entry_key(es[0])) {
        assert(out == seq![e] + es);
        assert forall|i: int| 0 <= i < out.len() implies p(#[trigger] out[i]) by {
            if i == 0 {
                assert(out[i] == e);
            } else {
                assert(out[i] == es[i - 1]);
            }
        }
    } else {
        let t = es.drop_first();
        assert forall|i: int| 0 <= i < t.len() implies p(#[trigger] t[i]) by {
            assert(t[i] == es[i + 1]);
        }
        lemma_sorted_insert_all(t, e, p);
        assert(out == seq![es[0]] + sorted_insert_entry(t, e));
        assert forall|i: int| 0 <= i < out.len() implies p(#[trigger] out[i]) by {
            if i == 0 {
                assert(out[i] == es[0]);
            } else {
                assert(out[i] == sorted_insert_entry(t, e)[i - 1]);
            }
        }
    }
}

/// Sorting keeps an element-wise property of the entries.
pub proof fn lemma_sort_entries_all(
    es: Seq<(Seq<Seq<char>>, Seq<u8>)>,
    p: spec_fn((Seq<Seq<char>>, Seq<u8>)) -> bool,
)
    requires
        forall|i: int| 0 <= i < es.len() ==> p(#[trigger] es[i]),
    ensures
        forall|i: int|
            0 <= i < spec_sort_entries(es).len() ==> p(#[trigger] spec_sort_entries(es)[i]),
    decreases es,
{
    if es.len() > 0 {
        let d = es.drop_last();
        assert forall|i: int| 0 <= i < d.len() implies p(#[trigger] d[i]) by {
            assert(d[i] == es[i]);
        }
        lemma_sort_entries_all(d, p);
        lemma_sorted_insert_all(spec_sort_entries(d), es.last(), p);
    }
}

/// Every entry's length and their sum fit a signed 64-bit length field.
pub open spec fn entry_sizes_ok(sv: Seq<(Seq<Seq<char>>, Seq<u8>)>) -> bool {
    &&& forall|i: int| 0 <= i < sv.len() ==> (#[trigger] sv[i]).1.len() <= i64::MAX
    &&& total_size(sv) <= i64::MAX
}

impl TorrentBuilder {
    /// Build a multi-file torrent from the directory's files, each given
    /// as its path components below the root and its content.  The
    /// caller's I/O layer walks the tree (skipping symbolic links and
    /// hidden entries), reads the files, and reports in `path_exists`
    /// whether the configured path points at anything.  Entries are
    /// sorted here by their path bytes; that order fixes both the `files`
    /// list and the hashing order, and pieces run across file boundaries.
    #[verifier::loop_isolation(false)]
    #[verifier::rlimit(60)]
    pub fn build_with_dir(
        self,
        entries: Vec<(Vec<String>, Vec<u8>)>,
        path_exists: bool,
    ) -> (r: Result<Torrent, LavaError>)
        requires
            extra_fields_present_nonempty(self.extra_fields),
            extra_fields_present_nonempty(self.extra_info_fields),
            entry_paths_ok(view_entries(entries@)),
        ensures
            r is Ok <==> config_ok(self) && path_exists && name_available(self)
                && piece_length_fits(self) && entry_sizes_ok(
                spec_sort_entries(view_entries(entries@)),
            ),
            r matches Ok(t) ==> ({
                let sv = spec_sort_entries(view_entries(entries@));
                let data = concat_all(sv.map_values(|e: (Seq<Seq<char>>, Seq<u8>)| e.1));
                &&& t.announce == self.announce
                &&& t.announce_list == self.announce_list
                &&& t.name@ == expected_name(self)
                &&& t.piece_length == self.piece_length
                &&& t.length as int == total_size(sv)
                &&& t.files matches Some(fs)
                &&& fs@.len() == sv.len()
                &&& (forall|i: int|
                    0 <= i < sv.len() ==> (#[trigger] fs@[i]).length as int == sv[i].1.len()
                        && fs@[i].path.deep_view() == sv[i].0 && fs@[i].extra_fields is None)
                &&& (forall|i: int| 0 <= i < sv.len() ==> path_clean((#[trigger] fs@[i]).path.deep_view()))
                &&& t.pieces@.len() == piece_count(data.len() as int, self.piece_length as int)
                &&& t.pieces@.len() == piece_count(t.length as int, t.piece_length as int)
                &&& (forall|i: int|
                    0 <= i < t.pieces@.len() ==> (#[trigger] t.pieces@[i])@ == sha1_of(
                        spec_piece(data, self.piece_length as int, i),
                    ))
                &&& (forall|i: int| 0 <= i < t.pieces@.len() ==> (#[trigger] t.pieces@[i])@.len() == 20)
                &&& t.extra_fields == self.extra_fields
                &&& view_opt(t.extra_info_fields) == spliced_info_fields(self)
            }),
            r matches Err(e) ==> (e.kind == ErrorKind::TorrentBuilderFailure || e.kind
                == ErrorKind::IOError),
            r matches Err(e) ==> (config_ok(self) && path_exists && name_available(self)
                ==> e.kind == ErrorKind::IOError),
            r matches Err(e) ==> (!(config_ok(self) && path_exists && name_available(self))
                ==> e.kind == ErrorKind::TorrentBuilderFailure),
    {
        match self.validate_all(path_exists) {
            Err(e) => {
                return Err(e);
            },
            _ => {},
        }
        let name = match self.resolve_name() {
            Err(e) => {
                return Err(e);
            },
            Ok(n) => n,
        };
        let pl = match self.resolve_piece_length() {
            Err(e) => {
                return Err(e);
            },
            Ok(pl) => pl,
        };
        let ghost orig = view_entries(entries@);
        let ghost sv = spec_sort_entries(orig);
        proof {
            lemma_view_entries_index(entries@);
            lemma_sort_entries_all(orig, (|e: (Seq<Seq<char>>, Seq<u8>)| path_clean(e.0)));
        }
        let mut rest = entries;
        let mut sorted: Vec<(Vec<String>, Vec<u8>)> = Vec::new();
        let ghost mut done: int = 0;
        proof {
            assert(orig.take(0) =~= Seq::<(Seq<Seq<char>>, Seq<u8>)>::empty());
            assert(view_entries(sorted@) =~= Seq::<(Seq<Seq<char>>, Seq<u8>)>::empty());
            assert(rest@ =~= rest@.skip(0));
        }
        let ghost entries0 = rest@;
        while rest.len() > 0
            invariant
                0 <= done <= orig.len(),
                done + rest@.len() == orig.len(),
                rest@ =~= entries0.skip(done),
                entries0.len() == orig.len(),
                forall|t: int|
                    0 <= t < orig.len() ==> #[trigger] orig[t] == (
                        entries0[t].0.deep_view(),
                        entries0[t].1@,
                    ),
                view_entries(sorted@) == spec_sort_entries(orig.take(done)),
            decreases rest@.len(),
        {
            let e = rest.remove(0);
            proof {
                assert(entries0.skip(done)[0] == entries0[done]);
                assert(e == entries0[done]);
                assert(rest@ =~= entries0.skip(done + 1));
                assert(orig.take(done + 1).drop_last() =~= orig.take(done));
                assert(orig.take(done + 1).last() == orig[done]);
            }
            insert_entry_sorted(&mut sorted, e);
            proof {
                done = done + 1;
            }
        }
        proof {
            assert(orig.take(done) =~= orig);
            assert(view_entries(sorted@) == sv);
            lemma_view_entries_index(sorted@);
        }
        let n_entries: usize = sorted.len();
        let ghost sorted0 = sorted@;
        let mut srest = sorted;
        let mut contents: Vec<Vec<u8>> = Vec::new();
        let mut files: Vec<File> = Vec::new();
        let mut total: i64 = 0;
        let mut k: usize = 0;
        proof {
            assert(sv.take(0) =~= Seq::<(Seq<Seq<char>>, Seq<u8>)>::empty());
            assert(srest@ =~= sorted0.skip(0));
        }
        while k < n_entries
            invariant
                0 <= k <= n_entries,
                n_entries == sorted0.len(),
                sv.len() == sorted0.len(),
                k + srest@.len() == n_entries,
                srest@ =~= sorted0.skip(k as int),
                forall|t: int|
                    0 <= t < sorted0.len() ==> #[trigger] sv[t] == (
                        sorted0[t].0.deep_view(),
                        sorted0[t].1@,
                    ),
                contents@.len() == k,
                files@.len() == k,
                forall|i: int|
                    0 <= i < k ==> (#[trigger] contents@[i])@ == sv[i].1,
                forall|i: int|
                    0 <= i < k ==> (#[trigger] files@[i]).length as int == sv[i].1.len()
                        && files@[i].path.deep_view() == sv[i].0 && files@[i].extra_fields
                        is None,
                total as int == total_size(sv.take(k as int)),
                0 <= total,
            decreases n_entries - k,
        {
            let (path, content) = srest.remove(0);
            proof {
                assert(sorted0.skip(k as int)[0] == sorted0[k as int]);
                assert(srest@ =~= sorted0.skip(k + 1));
                assert(sv[k as int] == (sorted0[k as int].0.deep_view(), sorted0[k as int].1@));
                lemma_total_size_take(sv, k as int);
            }
            if (content.len() as u64) > (i64::MAX as u64) {
                proof {
                    lemma_total_size_prefix(sv, k + 1);
                    assert(sv[k as int].1.len() > i64::MAX);
                }
                return Err(
                    LavaError::new(
                        ErrorKind::IOError,
                        "a file is longer than a length field holds",
                    ),
                );
            }
            let flen: i64 = content.len() as i64;
            total = match total.checked_add(flen) {
                Some(t) => t,
                None => {
                    proof {
                        lemma_total_size_prefix(sv, k + 1);
                    }
                    return Err(
                        LavaError::new(
                            ErrorKind::IOError,
                            "the total length does not fit a length field",
                        ),
                    );
                },
            };
            files.push(File { length: flen, path, extra_fields: None });
            contents.push(content);
            k = k + 1;
        }
        proof {
            assert(sv.take(n_entries as int) =~= sv);
            assert(total as int == total_size(sv));
            assert forall|i: int| 0 <= i < sv.len() implies (#[trigger] sv[i]).1.len()
                <= i64::MAX by {
                lemma_total_size_take(sv, i);
                lemma_total_size_nonneg(sv.take(i));
                lemma_total_size_prefix(sv, i + 1);
            }
            assert(entry_sizes_ok(sv));
        }
        let pieces = hash_pieces(&contents, pl);
        proof {
            let f = |e: (Seq<Seq<char>>, Seq<u8>)| e.1;
            assert forall|i: int| 0 <= i < contents@.len() implies contents.deep_view()[i]
                == sv.map_values(f)[i] by {
                assert(contents@[i].deep_view() =~= contents@[i]@);
            }
            assert(contents.deep_view() =~= sv.map_values(f));
            lemma_concat_len_eq_total(sv);
        }
        let TorrentBuilder {
            announce,
            announce_list,
            name: _,
            path: _,
            piece_length,
            extra_fields,
            extra_info_fields,
            is_private,
        } = self;
        let extra_info_fields = TorrentBuilder::splice_private(is_private, extra_info_fields);
        Ok(
            Torrent {
                announce,
                announce_list,
                length: total,
                files: Some(files),
                name,
                piece_length,
                pieces,
                extra_fields,
                extra_info_fields,
            },
        )
    }
}

} // verus!
