//! Cutting a byte sequence into fixed-size pieces and putting it back
//! together.
//!
//! A transfer moves each file as a sequence of chunks of at most a fixed size.
//! Empty data still yields exactly one (empty) chunk, so that an empty file
//! materialises a name on the receiving side.

use vstd::prelude::*;

verus! {

/// `data` cut at multiples of `sz`, in order.  Empty data gives one empty
/// piece; every piece but the last has length exactly `sz`, and the last has
/// length at most `sz`.
pub open spec fn chunks_of(data: Seq<u8>, sz: int) -> Seq<Seq<u8>>
    decreases data.len(),
{
    if sz < 1 || data.len() <= sz {
        seq![data]
    } else {
        seq![data.subrange(0, sz)] + chunks_of(data.subrange(sz, data.len() as int), sz)
    }
}

/// Concatenation of a sequence of byte sequences, in order.
pub open spec fn concat_all(pieces: Seq<Seq<u8>>) -> Seq<u8>
    decreases pieces.len(),
{
    if pieces.len() == 0 {
        Seq::empty()
    } else {
        pieces[0] + concat_all(pieces.skip(1))
    }
}

pub proof fn lemma_concat_all_single(p: Seq<u8>)
    ensures
        concat_all(seq![p]) == p,
{
    reveal_with_fuel(concat_all, 2);
    assert(seq![p].skip(1) =~= Seq::<Seq<u8>>::empty());
    assert(concat_all(seq![p]) =~= p);
}

pub proof fn lemma_concat_all_push(pieces: Seq<Seq<u8>>, last: Seq<u8>)
    ensures
        concat_all(pieces.push(last)) == concat_all(pieces) + last,
    decreases pieces.len(),
{
    if pieces.len() == 0 {
        lemma_concat_all_single(last);
        assert(pieces.push(last) =~= seq![last]);
        assert(Seq::<u8>::empty() + last =~= last);
    } else {
        let whole = pieces.push(last);
        assert(whole[0] == pieces[0]);
        assert(whole.skip(1) =~= pieces.skip(1).push(last));
        lemma_concat_all_push(pieces.skip(1), last);
        assert(pieces[0] + (concat_all(pieces.skip(1)) + last) =~= (pieces[0] + concat_all(
            pieces.skip(1),
        )) + last);
    }
}

pub proof fn lemma_concat_all_cons(head: Seq<u8>, rest: Seq<Seq<u8>>)
    ensures
        concat_all(seq![head] + rest) == head + concat_all(rest),
{
    let cs = seq![head] + rest;
    assert(cs.len() >= 1);
    assert(cs[0] == head);
    assert(cs.skip(1) =~= rest);
    assert(concat_all(cs) == head + concat_all(rest));
}

/// Putting the pieces back together gives back the data.
pub proof fn lemma_chunks_concat(data: Seq<u8>, sz: int)
    ensures
        concat_all(chunks_of(data, sz)) == data,
    decreases data.len(),
{
    if sz < 1 || data.len() <= sz {
        lemma_concat_all_single(data);
    } else {
        let head = data.subrange(0, sz);
        let tail = data.subrange(sz, data.len() as int);
        lemma_chunks_concat(tail, sz);
        lemma_concat_all_cons(head, chunks_of(tail, sz));
        assert(head + tail =~= data);
    }
}

/// Shape of the pieces: there is at least one; all but the last are full;
/// none is longer than `sz`; and the lengths add up to the data's length.
pub proof fn lemma_chunks_shape(data: Seq<u8>, sz: int)
    requires
        sz >= 1,
    ensures
        chunks_of(data, sz).len() >= 1,
        forall|i: int|
            0 <= i < chunks_of(data, sz).len() - 1 ==> (#[trigger] chunks_of(data, sz)[i]).len()
                == sz,
        chunks_of(data, sz).last().len() <= sz,
        data.len() > 0 ==> chunks_of(data, sz).last().len() >= 1,
        data.len() == 0 ==> chunks_of(data, sz).last().len() == 0,
        data.len() == (chunks_of(data, sz).len() - 1) * sz + chunks_of(data, sz).last().len(),
    decreases data.len(),
{
    if data.len() <= sz {
    } else {
        let tail = data.subrange(sz, data.len() as int);
        lemma_chunks_shape(tail, sz);
        let cs = chunks_of(data, sz);
        let ct = chunks_of(tail, sz);
        assert(cs == seq![data.subrange(0, sz)] + ct);
        assert(cs.last() == ct.last());
        assert(forall|i: int| 1 <= i < cs.len() ==> #[trigger] cs[i] == ct[i - 1]);
        assert(tail.len() == (ct.len() - 1) * sz + ct.last().len());
        assert((cs.len() - 1) * sz == (ct.len() - 1) * sz + sz) by (nonlinear_arith)
            requires
                cs.len() == ct.len() + 1,
        ;
        assert(data.len() == sz + tail.len());
        assert(data.len() == (cs.len() - 1) * sz + cs.last().len());
    }
}

/// The length of a concatenation of pieces that are full but for the last.
pub proof fn lemma_concat_all_len(pieces: Seq<Seq<u8>>, sz: int)
    requires
        sz >= 1,
        pieces.len() >= 1,
        forall|i: int| 0 <= i < pieces.len() - 1 ==> (#[trigger] pieces[i]).len() == sz,
        pieces.last().len() <= sz,
    ensures
        concat_all(pieces).len() == (pieces.len() - 1) * sz + pieces.last().len(),
        concat_all(pieces).len() <= pieces.len() * sz,
    decreases pieces.len(),
{
    if pieces.len() == 1 {
        assert(pieces =~= seq![pieces[0]]);
        lemma_concat_all_single(pieces[0]);
        assert(pieces[0] == pieces.last());
        assert((pieces.len() - 1) * sz == 0);
        assert(concat_all(pieces).len() <= pieces.len() * sz) by (nonlinear_arith)
            requires
                concat_all(pieces).len() <= sz,
                pieces.len() == 1,
                sz >= 1,
        ;
    } else {
        let rest = pieces.skip(1);
        assert(rest.last() == pieces.last());
        assert(forall|i: int| 0 <= i < rest.len() - 1 ==> (#[trigger] rest[i]).len() == sz);
        lemma_concat_all_len(rest, sz);
        assert(pieces[0].len() == sz);
        assert(concat_all(pieces) == pieces[0] + concat_all(rest));
        assert((pieces.len() - 1) * sz == (rest.len() - 1) * sz + sz) by (nonlinear_arith)
            requires
                rest.len() == pieces.len() - 1,
                pieces.len() >= 2,
        ;
        assert(pieces.len() * sz == rest.len() * sz + sz) by (nonlinear_arith)
            requires
                rest.len() == pieces.len() - 1,
                pieces.len() >= 2,
        ;
    }
}

/// Cutting a concatenation of full pieces (all of length `sz` but a shorter,
/// nonempty last one) recovers exactly those pieces.
pub proof fn lemma_rechunk(pieces: Seq<Seq<u8>>, sz: int)
    requires
        sz >= 1,
        pieces.len() >= 1,
        forall|i: int| 0 <= i < pieces.len() - 1 ==> (#[trigger] pieces[i]).len() == sz,
        1 <= pieces.last().len() <= sz,
    ensures
        chunks_of(concat_all(pieces), sz) == pieces,
    decreases pieces.len(),
{
    let whole = concat_all(pieces);
    if pieces.len() == 1 {
        assert(pieces =~= seq![pieces[0]]);
        lemma_concat_all_single(pieces[0]);
        assert(whole == pieces[0]);
        assert(whole.len() <= sz);
        assert(chunks_of(whole, sz) =~= pieces);
    } else {
        let rest = pieces.skip(1);
        assert(rest.last() == pieces.last());
        assert(forall|i: int| 0 <= i < rest.len() - 1 ==> (#[trigger] rest[i]).len() == sz);
        lemma_rechunk(rest, sz);
        lemma_concat_all_len(rest, sz);
        assert(whole == pieces[0] + concat_all(rest));
        assert(concat_all(rest).len() >= 1);
        assert(whole.len() > sz);
        assert(whole.subrange(0, sz) =~= pieces[0]);
        assert(whole.subrange(sz, whole.len() as int) =~= concat_all(rest));
        assert(chunks_of(whole, sz) == seq![pieces[0]] + rest);
        assert(seq![pieces[0]] + rest =~= pieces);
    }
}

/// Copy of `v[start..end]` as a fresh vector.
pub fn take_range(v: &[u8], start: usize, end: usize) -> (r: Vec<u8>)
    requires
        start <= end <= v@.len(),
    ensures
        r@ == v@.subrange(start as int, end as int),
{
    let mut r: Vec<u8> = Vec::new();
    let mut i: usize = start;
    while i < end
        invariant
            start <= i <= end <= v@.len(),
            r@ == v@.subrange(start as int, i as int),
        decreases end - i,
    {
        r.push(v[i]);
        assert(r@ =~= v@.subrange(start as int, i + 1));
        i = i + 1;
    }
    r
}

/// Cut `data` into pieces of `sz` bytes, the last one possibly shorter;
/// empty data yields one empty piece.
pub fn split_chunks(data: &[u8], sz: usize) -> (r: Vec<Vec<u8>>)
    requires
        sz >= 1,
    ensures
        r@.len() == chunks_of(data@, sz as int).len(),
        forall|i: int|
            0 <= i < r@.len() ==> (#[trigger] r@[i])@ == chunks_of(data@, sz as int)[i],
{
    let ghost all = chunks_of(data@, sz as int);
    let mut r: Vec<Vec<u8>> = Vec::new();
    let mut pos: usize = 0;
    if data.len() <= sz {
        let piece = take_range(data, 0, data.len());
        assert(data@.subrange(0, data@.len() as int) =~= data@);
        r.push(piece);
        return r;
    }
    proof {
        assert(data@.subrange(0, data@.len() as int) =~= data@);
        assert(r@.map_values(|p: Vec<u8>| p@) =~= Seq::<Seq<u8>>::empty());
        assert(Seq::<Seq<u8>>::empty() + chunks_of(data@, sz as int) =~= chunks_of(
            data@,
            sz as int,
        ));
    }
    while data.len() - pos > sz
        invariant
            sz >= 1,
            pos <= data@.len(),
            data@.len() - pos >= 1,
            all == r@.map_values(|p: Vec<u8>| p@) + chunks_of(
                data@.subrange(pos as int, data@.len() as int),
                sz as int,
            ),
        decreases data@.len() - pos,
    {
        let piece = take_range(data, pos, pos + sz);
        let ghost rest = data@.subrange(pos as int, data@.len() as int);
        assert(rest.subrange(0, sz as int) =~= data@.subrange(pos as int, pos + sz as int));
        assert(rest.subrange(sz as int, rest.len() as int) =~= data@.subrange(
            pos + sz as int,
            data@.len() as int,
        ));
        r.push(piece);
        proof {
            assert(chunks_of(rest, sz as int) == seq![rest.subrange(0, sz as int)] + chunks_of(
                rest.subrange(sz as int, rest.len() as int),
                sz as int,
            ));
            let prev = r@.drop_last().map_values(|p: Vec<u8>| p@);
            assert(r@.drop_last() =~= r@.subrange(0, r@.len() - 1));
            assert(r@.map_values(|p: Vec<u8>| p@) =~= prev + seq![piece@]);
            assert(all =~= r@.map_values(|p: Vec<u8>| p@) + chunks_of(
                data@.subrange(pos + sz as int, data@.len() as int),
                sz as int,
            ));
        }
        pos = pos + sz;
    }
    let piece = take_range(data, pos, data.len());
    r.push(piece);
    proof {
        let rest = data@.subrange(pos as int, data@.len() as int);
        assert(chunks_of(rest, sz as int) == seq![rest]);
        let prev = r@.drop_last().map_values(|p: Vec<u8>| p@);
        assert(r@.drop_last() =~= r@.subrange(0, r@.len() - 1));
        assert(r@.map_values(|p: Vec<u8>| p@) =~= prev + seq![piece@]);
        assert(all =~= r@.map_values(|p: Vec<u8>| p@));
        assert(forall|i: int|
            0 <= i < r@.len() ==> (#[trigger] r@[i])@ == r@.map_values(|p: Vec<u8>| p@)[i]);
    }
    r
}

} // verus!
