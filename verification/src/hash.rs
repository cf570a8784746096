use vstd::prelude::*;

verus! {

/// The SHA-1 digest of a byte sequence.  The function itself is left
/// unspecified: the library relies on an outside implementation for its
/// value and states only how digests are combined and laid out.
pub uninterp spec fn sha1_of(bytes: Seq<u8>) -> Seq<u8>;

/// Relies on sha1_smol's `Sha1`: feeding bytes once and taking the
/// digest yields the SHA-1 of those bytes, a function of the bytes
/// alone, 20 bytes long.
#[verifier::external_body]
pub fn sha1_digest(data: &[u8]) -> (r: Vec<u8>)
    ensures
        r@ == sha1_of(data@),
        r@.len() == 20,
{
    sha1_smol::Sha1::from(data).digest().bytes().to_vec()
}

/// All chunks laid end to end.
pub open spec fn concat_all(chunks: Seq<Seq<u8>>) -> Seq<u8>
    decreases chunks,
{
    if chunks.len() == 0 {
        Seq::empty()
    } else {
        concat_all(chunks.drop_last()) + chunks.last()
    }
}

/// Concatenation splits at any chunk boundary.
pub proof fn lemma_concat_all_take(chunks: Seq<Seq<u8>>, i: int)
    requires
        0 <= i < chunks.len(),
    ensures
        concat_all(chunks.take(i + 1)) == concat_all(chunks.take(i)) + chunks[i],
    decreases chunks,
{
    if i + 1 == chunks.len() {
        assert(chunks.take(i + 1) =~= chunks);
        assert(chunks.take(i) =~= chunks.drop_last());
    } else {
        lemma_concat_all_take(chunks.drop_last(), i);
        assert(chunks.drop_last().take(i + 1) =~= chunks.take(i + 1));
        assert(chunks.drop_last().take(i) =~= chunks.take(i));
    }
}

/// The number of pieces `total` bytes fill at `pl` bytes a piece, the
/// last piece allowed short: `ceil(total / pl)`.
pub open spec fn piece_count(total: int, pl: int) -> int {
    (total + pl - 1) / pl
}

/// The bytes of piece `idx` of `data`: a full `pl`-byte slice, or what
/// is left at the end.
pub open spec fn spec_piece(data: Seq<u8>, pl: int, idx: int) -> Seq<u8> {
    if (idx + 1) * pl <= data.len() {
        data.subrange(idx * pl, (idx + 1) * pl)
    } else {
        data.subrange(idx * pl, data.len() as int)
    }
}

} // verus!

verus! {

use vstd::arithmetic::div_mod::lemma_fundamental_div_mod_converse;

/// A chunk list concatenates front-first as well.
pub proof fn lemma_concat_all_front(chunks: Seq<Seq<u8>>)
    requires
        chunks.len() > 0,
    ensures
        concat_all(chunks) == chunks[0] + concat_all(chunks.drop_first()),
    decreases chunks,
{
    if chunks.len() == 1 {
        assert(chunks.drop_first() =~= Seq::<Seq<u8>>::empty());
        assert(chunks.drop_last() =~= Seq::<Seq<u8>>::empty());
        assert(concat_all(chunks) == concat_all(chunks.drop_last()) + chunks.last());
        assert(chunks[0] + concat_all(chunks.drop_first()) =~= concat_all(chunks));
    } else {
        lemma_concat_all_front(chunks.drop_last());
        assert(chunks.drop_last()[0] == chunks[0]);
        assert(chunks.drop_last().drop_first() =~= chunks.drop_first().drop_last());
        assert(chunks.drop_first().last() == chunks.last());
        assert(concat_all(chunks) == concat_all(chunks.drop_last()) + chunks.last());
        assert(concat_all(chunks.drop_last()) == chunks[0] + concat_all(
            chunks.drop_first().drop_last(),
        ));
        assert(concat_all(chunks.drop_first()) == concat_all(chunks.drop_first().drop_last())
            + chunks.last());
        assert((chunks[0] + concat_all(chunks.drop_first().drop_last())) + chunks.last()
            =~= chunks[0] + (concat_all(chunks.drop_first().drop_last()) + chunks.last()));
    }
}

/// A chunk list concatenates as its first `i` chunks followed by the
/// rest.
pub proof fn lemma_concat_all_split(chunks: Seq<Seq<u8>>, i: int)
    requires
        0 <= i <= chunks.len(),
    ensures
        concat_all(chunks) == concat_all(chunks.take(i)) + concat_all(chunks.skip(i)),
    decreases i,
{
    if i == 0 {
        assert(chunks.take(0) =~= Seq::<Seq<u8>>::empty());
        assert(chunks.skip(0) =~= chunks);
        assert(concat_all(chunks.take(0)) + concat_all(chunks) =~= concat_all(chunks));
    } else {
        lemma_concat_all_front(chunks);
        lemma_concat_all_split(chunks.drop_first(), i - 1);
        assert(chunks.drop_first().take(i - 1) =~= chunks.take(i).drop_first());
        assert(chunks.drop_first().skip(i - 1) =~= chunks.skip(i));
        lemma_concat_all_front(chunks.take(i));
        assert(chunks.take(i)[0] == chunks[0]);
        assert(chunks[0] + (concat_all(chunks.take(i).drop_first()) + concat_all(chunks.skip(i)))
            =~= (chunks[0] + concat_all(chunks.take(i).drop_first())) + concat_all(
            chunks.skip(i),
        ));
    }
}

/// Split the concatenation of the given file contents into
/// `piece_length`-sized pieces and hash each one: pieces cross file
/// boundaries, and only the final piece may be short.
#[verifier::loop_isolation(false)]
pub fn hash_pieces(files: &Vec<Vec<u8>>, piece_length: usize) -> (pieces: Vec<Vec<u8>>)
    requires
        piece_length > 0,
    ensures
        ({
            let data = concat_all(files.deep_view());
            &&& pieces@.len() == piece_count(data.len() as int, piece_length as int)
            &&& forall|i: int|
                0 <= i < pieces@.len() ==> (#[trigger] pieces@[i])@ == sha1_of(
                    spec_piece(data, piece_length as int, i),
                )
            &&& forall|i: int| 0 <= i < pieces@.len() ==> (#[trigger] pieces@[i])@.len() == 20
        }),
{
    let ghost fv = files.deep_view();
    let ghost data = concat_all(fv);
    let pl = piece_length;
    let mut pieces: Vec<Vec<u8>> = Vec::new();
    let mut piece: Vec<u8> = Vec::new();
    let ghost mut done: int = 0;
    let n_files: usize = files.len();
    proof {
        assert(fv.len() == files@.len());
        assert(fv.take(0) =~= Seq::<Seq<u8>>::empty());
        assert(pieces@.len() == 0);
        assert(pieces@.len() * pl == 0) by (nonlinear_arith)
            requires
                pieces@.len() == 0,
        ;
        assert(piece@ =~= data.subrange(0, 0));
    }
    let mut fi: usize = 0;
    while fi < n_files
        invariant
            0 <= fi <= n_files,
            done == concat_all(fv.take(fi as int)).len(),
            done == pieces@.len() * pl + piece@.len(),
            0 <= piece@.len() < pl,
            done <= data.len(),
            piece@ == data.subrange(pieces@.len() * pl, done),
            forall|i: int|
                0 <= i < pieces@.len() ==> (#[trigger] pieces@[i])@ == sha1_of(
                    data.subrange(i * pl, i * pl + pl),
                ) && i * pl + pl <= done,
            forall|i: int| 0 <= i < pieces@.len() ==> (#[trigger] pieces@[i])@.len() == 20,
        decreases n_files - fi,
    {
        let file = &files[fi];
        let ghost pre = concat_all(fv.take(fi as int)).len() as int;
        proof {
            assert(fv[fi as int] == files@[fi as int].deep_view());
            assert(files@[fi as int].deep_view() =~= files@[fi as int]@);
            lemma_concat_all_split(fv, fi as int);
            lemma_concat_all_split(fv, fi + 1);
            lemma_concat_all_take(fv, fi as int);
            assert(data.len() >= concat_all(fv.take(fi + 1)).len());
        }
        let n_bytes: usize = file.len();
        let mut bi: usize = 0;
        while bi < n_bytes
            invariant
                0 <= bi <= n_bytes,
                n_bytes == file@.len(),
                file@ == files@[fi as int]@,
                fi < n_files,
                pre == concat_all(fv.take(fi as int)).len(),
                fv[fi as int] == file@,
                done == pre + bi,
                done == pieces@.len() * pl + piece@.len(),
                0 <= piece@.len() < pl,
                done <= data.len(),
                pre + n_bytes <= data.len(),
                forall|t: int| 0 <= t < n_bytes ==> data[pre + t] == file@[t],
                piece@ == data.subrange(pieces@.len() * pl, done),
                forall|i: int|
                    0 <= i < pieces@.len() ==> (#[trigger] pieces@[i])@ == sha1_of(
                        data.subrange(i * pl, i * pl + pl),
                    ) && i * pl + pl <= done,
                forall|i: int| 0 <= i < pieces@.len() ==> (#[trigger] pieces@[i])@.len() == 20,
            decreases n_bytes - bi,
        {
            piece.push(file[bi]);
            proof {
                assert(data[done] == file@[bi as int]);
                assert(piece@ =~= data.subrange(pieces@.len() * pl, done + 1));
                done = done + 1;
            }
            bi = bi + 1;
            if piece.len() == pl {
                let digest = sha1_digest(piece.as_slice());
                let ghost n_before = pieces@.len() as int;
                pieces.push(digest);
                piece.clear();
                proof {
                    assert(done <= data.len());
                    assert((n_before + 1) * pl == n_before * pl + pl) by (nonlinear_arith);
                    assert(pieces@[n_before]@ == sha1_of(
                        data.subrange(n_before * pl, n_before * pl + pl),
                    ));
                    assert(piece@ =~= data.subrange(pieces@.len() * pl, done));
                }
            }
        }
        proof {
            assert(concat_all(fv.take(fi + 1)) == concat_all(fv.take(fi as int)) + fv[fi as int]);
        }
        fi = fi + 1;
    }
    proof {
        assert(fv.take(n_files as int) =~= fv);
        assert(done == data.len());
    }
    if piece.len() > 0 {
        let digest = sha1_digest(piece.as_slice());
        let ghost n_before = pieces@.len() as int;
        pieces.push(digest);
        proof {
            assert(data.subrange(n_before * pl, data.len() as int) == piece@);
            assert((n_before + 1) * pl > data.len()) by (nonlinear_arith)
                requires
                    data.len() == n_before * pl + piece@.len(),
                    piece@.len() < pl,
            ;
            assert(pieces@[n_before]@ == sha1_of(spec_piece(data, pl as int, n_before)));
            assert forall|i: int| 0 <= i < pieces@.len() implies (#[trigger] pieces@[i])@
                == sha1_of(spec_piece(data, pl as int, i)) by {
                if i < n_before {
                    assert((i + 1) * pl <= n_before * pl <= data.len()) by (nonlinear_arith)
                        requires
                            i + 1 <= n_before,
                            pl > 0,
                            n_before * pl <= data.len(),
                    ;
                    assert((i + 1) * pl == i * pl + pl) by (nonlinear_arith);
                    assert(pieces@[i]@ == sha1_of(data.subrange(i * pl, i * pl + pl)));
                } else {
                    assert(i == n_before);
                }
            }
            assert((n_before + 1) * pl == n_before * pl + pl) by (nonlinear_arith);
            lemma_fundamental_div_mod_converse(
                data.len() + pl - 1,
                pl as int,
                n_before + 1,
                (piece@.len() - 1) as int,
            );
            assert(pieces@.len() == piece_count(data.len() as int, pl as int));
        }
    } else {
        proof {
            let n = pieces@.len() as int;
            assert forall|i: int| 0 <= i < n implies (#[trigger] pieces@[i])@ == sha1_of(
                spec_piece(data, pl as int, i),
            ) by {
                assert((i + 1) * pl <= n * pl <= data.len()) by (nonlinear_arith)
                    requires
                        i + 1 <= n,
                        pl > 0,
                        n * pl <= data.len(),
                ;
                assert((i + 1) * pl == i * pl + pl) by (nonlinear_arith);
                assert(pieces@[i]@ == sha1_of(data.subrange(i * pl, i * pl + pl)));
            }
            if data.len() == 0 {
                assert(n * pl == 0);
                assert(n == 0) by (nonlinear_arith)
                    requires
                        n * pl == 0,
                        pl > 0,
                        n >= 0,
                ;
                lemma_fundamental_div_mod_converse(data.len() + pl - 1, pl as int, 0, pl - 1);
            } else {
                lemma_fundamental_div_mod_converse(data.len() + pl - 1, pl as int, n, pl - 1);
            }
            assert(pieces@.len() == piece_count(data.len() as int, pl as int));
        }
    }
    pieces
}

} // verus!
