//! The transfer agent: one directional, chunked transfer.
//!
//! An agent is spawned for exactly one job.  A sending agent turns an ordered
//! snapshot of files into a stream of chunk messages — each file's name made
//! filesystem-safe (encrypted when a secret is given, taken verbatim
//! otherwise), each file's bytes cut at the chunk size and encrypted when a
//! secret is given — and closes the stream with a single terminal chunk.  A
//! receiving agent starts from a clean destination and appends each arriving
//! chunk to the file its tag names, until the terminal chunk.

use vstd::prelude::*;
use crate::chunks::{chunks_of, lemma_chunks_shape, split_chunks};
use crate::codec::{
    decrypt_name_spec, encrypt_data, encrypt_name, encrypted_chunk_ok, CodecError, CHUNK_SIZE,
    NAME_PLAIN_MAX,
};
use vstd::utf8::encode_utf8;
use crate::snapshot::{has_prefix, leaf_of, leaf_spec, strip_prefix};
use crate::store::{entries_view, recv_update, FileEntry, Store};

verus! {

/// One unit of the transfer stream as the agents exchange it: the structured
/// part (file tag and terminal flag) plus the binary payload that travels
/// beside it.  The terminal chunk has an empty tag and an empty payload.
pub struct ChunkMsg {
    pub file_name: String,
    pub done: bool,
    pub payload: Vec<u8>,
}

/// The chunk messages as the pairs (tag, payload) the specifications speak
/// of.
pub open spec fn msgs_view(ms: Seq<ChunkMsg>) -> Seq<(Seq<char>, Seq<u8>)> {
    ms.map_values(|m: ChunkMsg| (m.file_name@, m.payload@))
}

/// The payloads of a message sequence, in order.
pub open spec fn payloads(msgs: Seq<(Seq<char>, Seq<u8>)>) -> Seq<Seq<u8>> {
    msgs.map_values(|m: (Seq<char>, Seq<u8>)| m.1)
}

/// A correct encrypted wire for one file: every message carries the same
/// tag, which decrypts to the file's relative path; there is one message per
/// plaintext chunk; and each payload is a ciphertext of its chunk.
pub open spec fn file_wire_ok(
    tag: Seq<char>,
    path: Seq<char>,
    content: Seq<u8>,
    secret: Seq<char>,
    msgs: Seq<(Seq<char>, Seq<u8>)>,
) -> bool {
    &&& decrypt_name_spec(tag, secret) == Some(path)
    &&& msgs.len() == chunks_of(content, CHUNK_SIZE as int).len()
    &&& forall|i: int| 0 <= i < msgs.len() ==> (#[trigger] msgs[i]).0 == tag
    &&& forall|i: int|
        0 <= i < msgs.len() ==> encrypted_chunk_ok(
            chunks_of(content, CHUNK_SIZE as int)[i],
            secret,
            (#[trigger] msgs[i]).1,
        )
}

/// A correct plain wire for one file: same tag throughout, one message per
/// chunk, each payload the chunk itself.
pub open spec fn file_relay_ok(
    tag: Seq<char>,
    content: Seq<u8>,
    msgs: Seq<(Seq<char>, Seq<u8>)>,
) -> bool {
    &&& msgs.len() == chunks_of(content, CHUNK_SIZE as int).len()
    &&& forall|i: int| 0 <= i < msgs.len() ==> (#[trigger] msgs[i]).0 == tag
    &&& forall|i: int|
        0 <= i < msgs.len() ==> (#[trigger] msgs[i]).1 == chunks_of(content, CHUNK_SIZE as int)[i]
}

/// A correct encrypted wire for a whole snapshot: the files' wires, in
/// snapshot order, one after the other.
pub open spec fn backup_wire_ok(
    files: Seq<(Seq<char>, Seq<u8>)>,
    secret: Seq<char>,
    msgs: Seq<(Seq<char>, Seq<u8>)>,
) -> bool
    decreases files.len(),
{
    if files.len() == 0 {
        msgs.len() == 0
    } else {
        let k = chunks_of(files[0].1, CHUNK_SIZE as int).len() as int;
        &&& k <= msgs.len()
        &&& file_wire_ok(msgs[0].0, files[0].0, files[0].1, secret, msgs.take(k))
        &&& backup_wire_ok(files.skip(1), secret, msgs.skip(k))
    }
}

/// A correct plain wire for a whole snapshot.
pub open spec fn relay_wire_ok(
    files: Seq<(Seq<char>, Seq<u8>)>,
    msgs: Seq<(Seq<char>, Seq<u8>)>,
) -> bool
    decreases files.len(),
{
    if files.len() == 0 {
        msgs.len() == 0
    } else {
        let k = chunks_of(files[0].1, CHUNK_SIZE as int).len() as int;
        &&& k <= msgs.len()
        &&& file_relay_ok(files[0].0, files[0].1, msgs.take(k))
        &&& relay_wire_ok(files.skip(1), msgs.skip(k))
    }
}

/// The entries with a directory prefix taken off every path.
pub open spec fn rel_entries(
    files: Seq<(Seq<char>, Seq<u8>)>,
    pre: Seq<char>,
) -> Seq<(Seq<char>, Seq<u8>)> {
    files.map_values(|f: (Seq<char>, Seq<u8>)| (f.0.skip(pre.len() as int), f.1))
}

/// The entries with every path cut down to its last segment.
pub open spec fn leaf_entries(files: Seq<(Seq<char>, Seq<u8>)>) -> Seq<(Seq<char>, Seq<u8>)> {
    files.map_values(|f: (Seq<char>, Seq<u8>)| (leaf_spec(f.0), f.1))
}

/// Every file's path starts with the sending directory, and the relative
/// part behind it fits the name codec.
pub open spec fn sendable_under(files: Seq<(Seq<char>, Seq<u8>)>, pre: Seq<char>) -> bool {
    forall|i: int|
        0 <= i < files.len() ==> has_prefix((#[trigger] files[i]).0, pre) && encode_utf8(
            files[i].0.skip(pre.len() as int),
        ).len() <= NAME_PLAIN_MAX
}

/// Some file's path carries the sending directory but its relative part is
/// too long for the name codec.
pub open spec fn oversize_name_in(files: Seq<(Seq<char>, Seq<u8>)>, pre: Seq<char>) -> bool {
    exists|i: int|
        0 <= i < files.len() && has_prefix((#[trigger] files[i]).0, pre) && encode_utf8(
            files[i].0.skip(pre.len() as int),
        ).len() > NAME_PLAIN_MAX
}

/// Why a sending agent stopped.
#[derive(Debug)]
pub enum AgentError {
    /// A file's path does not start with the directory being sent.
    PrefixMismatch,
    /// The codec failed: no entropy, the cipher refused, or a name too long.
    Codec(CodecError),
}

/// The chunk messages for one file in encrypted mode.
fn file_msgs_encrypted(rel_path: &String, content: &Vec<u8>, secret: &str) -> (r: Result<
    Vec<ChunkMsg>,
    CodecError,
>)
    ensures
        r matches Ok(ms) ==> ms@.len() >= 1 && file_wire_ok(
            ms@[0].file_name@,
            rel_path@,
            content@,
            secret@,
            msgs_view(ms@),
        ) && (forall|i: int| 0 <= i < ms@.len() ==> !(#[trigger] ms@[i]).done),
        r is Ok ==> encode_utf8(rel_path@).len() <= NAME_PLAIN_MAX,
        r matches Err(e) ==> e == CodecError::RandomUnavailable || e
            == CodecError::EncryptionRefused || e == CodecError::NameTooLong,
        (r matches Err(e) && e == CodecError::NameTooLong) ==> encode_utf8(rel_path@).len()
            > NAME_PLAIN_MAX,
{
    let ghost pcs = chunks_of(content@, CHUNK_SIZE as int);
    let tag = match encrypt_name(rel_path.as_str(), secret) {
        Ok(t) => t,
        Err(e) => return Err(e),
    };
    proof {
        lemma_chunks_shape(content@, CHUNK_SIZE as int);
    }
    let pieces = split_chunks(content.as_slice(), CHUNK_SIZE);
    let mut out: Vec<ChunkMsg> = Vec::new();
    let mut i: usize = 0;
    while i < pieces.len()
        invariant
            i <= pieces@.len(),
            pcs == chunks_of(content@, CHUNK_SIZE as int),
            pieces@.len() == pcs.len(),
            forall|j: int| 0 <= j < pieces@.len() ==> (#[trigger] pieces@[j])@ == pcs[j],
            forall|j: int| 0 <= j < pcs.len() ==> (#[trigger] pcs[j]).len() <= CHUNK_SIZE,
            decrypt_name_spec(tag@, secret@) == Some(rel_path@),
            out@.len() == i,
            forall|j: int|
                0 <= j < i ==> (#[trigger] out@[j]).file_name@ == tag@ && !out@[j].done
                    && encrypted_chunk_ok(pcs[j], secret@, out@[j].payload@),
        decreases pieces@.len() - i,
    {
        let ct = match encrypt_data(pieces[i].as_slice(), secret) {
            Ok(c) => c,
            Err(e) => return Err(e),
        };
        out.push(ChunkMsg { file_name: tag.clone(), done: false, payload: ct });
        i = i + 1;
    }
    proof {
        assert(msgs_view(out@).len() == pcs.len());
        assert(forall|j: int|
            0 <= j < out@.len() ==> #[trigger] msgs_view(out@)[j] == (
                out@[j].file_name@,
                out@[j].payload@,
            ));
        assert(out@[0].file_name@ == tag@);
    }
    Ok(out)
}

/// The chunk messages for one file in plain mode: the stored bytes cut at
/// the chunk size and sent as they are, under the given tag.
fn file_msgs_plain(tag: &String, content: &Vec<u8>) -> (ms: Vec<ChunkMsg>)
    ensures
        ms@.len() >= 1,
        file_relay_ok(tag@, content@, msgs_view(ms@)),
        forall|i: int| 0 <= i < ms@.len() ==> !(#[trigger] ms@[i]).done,
        forall|i: int| 0 <= i < ms@.len() ==> (#[trigger] ms@[i]).file_name@ == tag@,
{
    let ghost pcs = chunks_of(content@, CHUNK_SIZE as int);
    proof {
        lemma_chunks_shape(content@, CHUNK_SIZE as int);
    }
    let pieces = split_chunks(content.as_slice(), CHUNK_SIZE);
    let mut out: Vec<ChunkMsg> = Vec::new();
    let mut i: usize = 0;
    while i < pieces.len()
        invariant
            i <= pieces@.len(),
            pcs == chunks_of(content@, CHUNK_SIZE as int),
            pieces@.len() == pcs.len(),
            forall|j: int| 0 <= j < pieces@.len() ==> (#[trigger] pieces@[j])@ == pcs[j],
            out@.len() == i,
            forall|j: int|
                0 <= j < i ==> (#[trigger] out@[j]).file_name@ == tag@ && !out@[j].done
                    && out@[j].payload@ == pcs[j],
        decreases pieces@.len() - i,
    {
        let piece = pieces[i].clone();
        proof {
            assert(piece@ =~= pieces@[i as int]@);
        }
        out.push(ChunkMsg { file_name: tag.clone(), done: false, payload: piece });
        i = i + 1;
    }
    proof {
        assert(forall|j: int|
            0 <= j < out@.len() ==> #[trigger] msgs_view(out@)[j] == (
                out@[j].file_name@,
                out@[j].payload@,
            ));
    }
    out
}

/// A snapshot's wire grows file by file.
proof fn lemma_backup_wire_snoc(
    files: Seq<(Seq<char>, Seq<u8>)>,
    secret: Seq<char>,
    msgs: Seq<(Seq<char>, Seq<u8>)>,
    f: (Seq<char>, Seq<u8>),
    fm: Seq<(Seq<char>, Seq<u8>)>,
)
    requires
        backup_wire_ok(files, secret, msgs),
        fm.len() == chunks_of(f.1, CHUNK_SIZE as int).len(),
        fm.len() >= 1,
        file_wire_ok(fm[0].0, f.0, f.1, secret, fm),
    ensures
        backup_wire_ok(files.push(f), secret, msgs + fm),
    decreases files.len(),
{
    reveal_with_fuel(backup_wire_ok, 3);
    if files.len() == 0 {
        assert(msgs + fm =~= fm);
        let k = chunks_of(f.1, CHUNK_SIZE as int).len() as int;
        assert(files.push(f)[0] == f);
        assert(fm.take(k) =~= fm);
        assert(fm.skip(k) =~= Seq::<(Seq<char>, Seq<u8>)>::empty());
        assert(files.push(f).skip(1) =~= Seq::<(Seq<char>, Seq<u8>)>::empty());
    } else {
        let k0 = chunks_of(files[0].1, CHUNK_SIZE as int).len() as int;
        lemma_chunks_shape(files[0].1, CHUNK_SIZE as int);
        assert((msgs + fm).take(k0) =~= msgs.take(k0));
        assert((msgs + fm).skip(k0) =~= msgs.skip(k0) + fm);
        assert((msgs + fm)[0] == msgs[0]);
        assert(files.push(f)[0] == files[0]);
        assert(files.push(f).skip(1) =~= files.skip(1).push(f));
        lemma_backup_wire_snoc(files.skip(1), secret, msgs.skip(k0), f, fm);
    }
}

/// The same, for a plain wire.
proof fn lemma_relay_wire_snoc(
    files: Seq<(Seq<char>, Seq<u8>)>,
    msgs: Seq<(Seq<char>, Seq<u8>)>,
    f: (Seq<char>, Seq<u8>),
    fm: Seq<(Seq<char>, Seq<u8>)>,
)
    requires
        relay_wire_ok(files, msgs),
        fm.len() == chunks_of(f.1, CHUNK_SIZE as int).len(),
        fm.len() >= 1,
        file_relay_ok(f.0, f.1, fm),
    ensures
        relay_wire_ok(files.push(f), msgs + fm),
    decreases files.len(),
{
    reveal_with_fuel(relay_wire_ok, 3);
    if files.len() == 0 {
        assert(msgs + fm =~= fm);
        let k = chunks_of(f.1, CHUNK_SIZE as int).len() as int;
        assert(files.push(f)[0] == f);
        assert(fm.take(k) =~= fm);
        assert(fm.skip(k) =~= Seq::<(Seq<char>, Seq<u8>)>::empty());
        assert(files.push(f).skip(1) =~= Seq::<(Seq<char>, Seq<u8>)>::empty());
    } else {
        let k0 = chunks_of(files[0].1, CHUNK_SIZE as int).len() as int;
        lemma_chunks_shape(files[0].1, CHUNK_SIZE as int);
        assert((msgs + fm).take(k0) =~= msgs.take(k0));
        assert((msgs + fm).skip(k0) =~= msgs.skip(k0) + fm);
        assert(files.push(f)[0] == files[0]);
        assert(files.push(f).skip(1) =~= files.skip(1).push(f));
        lemma_relay_wire_snoc(files.skip(1), msgs.skip(k0), f, fm);
    }
}

/// The full stream a sending agent emits for the files under `from_dir`:
/// each file's chunks in snapshot order, then exactly one terminal chunk
/// with an empty tag and no payload.  With a secret, a file's tag is its
/// path relative to `from_dir`, encrypted and encoded; without one, its last
/// path segment is taken verbatim (the stored names are already opaque).
pub fn sender_wire(files: &Vec<FileEntry>, from_dir: &String, secret: Option<&String>) -> (r:
    Result<Vec<ChunkMsg>, AgentError>)
    ensures
        r matches Ok(ms) ==> ms@.len() >= 1 && ms@.last().done && ms@.last().file_name@
            == Seq::<char>::empty() && ms@.last().payload@ == Seq::<u8>::empty() && (forall|i: int|
            0 <= i < ms@.len() - 1 ==> !(#[trigger] ms@[i]).done) && (match secret {
            Some(s) => backup_wire_ok(
                rel_entries(entries_view(files@), from_dir@ + seq!['/']),
                s@,
                msgs_view(ms@.drop_last()),
            ) && sendable_under(entries_view(files@), from_dir@ + seq!['/']),
            None => relay_wire_ok(leaf_entries(entries_view(files@)), msgs_view(ms@.drop_last())),
        }),
        r matches Err(e) ==> secret is Some && (match e {
            AgentError::PrefixMismatch => exists|i: int|
                0 <= i < files@.len() && !has_prefix(
                    (#[trigger] entries_view(files@)[i]).0,
                    from_dir@ + seq!['/'],
                ),
            AgentError::Codec(c) => c == CodecError::RandomUnavailable || c
                == CodecError::EncryptionRefused || c == CodecError::NameTooLong,
        }),
        (r matches Err(e) && (e matches AgentError::Codec(c) && c == CodecError::NameTooLong))
            ==> oversize_name_in(entries_view(files@), from_dir@ + seq!['/']),
        secret is None ==> r is Ok,
{
    let ghost fv = entries_view(files@);
    let ghost pre = from_dir@ + seq!['/'];
    let mut prefix = from_dir.clone();
    prefix.append("/");
    proof {
        reveal_strlit("/");
        assert(prefix@ == pre);
        assert(fv.take(0) =~= Seq::<(Seq<char>, Seq<u8>)>::empty());
        assert(rel_entries(fv.take(0), pre) =~= Seq::<(Seq<char>, Seq<u8>)>::empty());
        assert(leaf_entries(fv.take(0)) =~= Seq::<(Seq<char>, Seq<u8>)>::empty());
        assert(msgs_view(Seq::<ChunkMsg>::empty()) =~= Seq::<(Seq<char>, Seq<u8>)>::empty());
    }
    let mut out: Vec<ChunkMsg> = Vec::new();
    let mut i: usize = 0;
    while i < files.len()
        invariant
            i <= files@.len(),
            fv == entries_view(files@),
            pre == from_dir@ + seq!['/'],
            prefix@ == pre,
            forall|j: int| 0 <= j < out@.len() ==> !(#[trigger] out@[j]).done,
            match secret {
                Some(s) => backup_wire_ok(rel_entries(fv.take(i as int), pre), s@, msgs_view(out@))
                    && sendable_under(fv.take(i as int), pre),
                None => relay_wire_ok(leaf_entries(fv.take(i as int)), msgs_view(out@)),
            },
        decreases files@.len() - i,
    {
        let ghost out_before = out@;
        let mut fm: Vec<ChunkMsg> = match secret {
            Some(s) => {
                let rel = match strip_prefix(files[i].path.as_str(), prefix.as_str()) {
                    Some(rest) => rest,
                    None => {
                        proof {
                            assert(!has_prefix(fv[i as int].0, pre));
                        }
                        return Err(AgentError::PrefixMismatch);
                    },
                };
                proof {
                    assert(fv[i as int].0 == pre + rel@);
                    assert(rel@ =~= fv[i as int].0.skip(pre.len() as int));
                    assert(fv[i as int].0.subrange(0, pre.len() as int) =~= pre);
                    assert(has_prefix(fv[i as int].0, pre));
                }
                match file_msgs_encrypted(&rel, &files[i].content, s.as_str()) {
                    Ok(f) => f,
                    Err(c) => {
                        proof {
                            if c == CodecError::NameTooLong {
                                assert(encode_utf8(fv[i as int].0.skip(pre.len() as int)).len()
                                    > NAME_PLAIN_MAX);
                                assert(oversize_name_in(fv, pre));
                            }
                        }
                        return Err(AgentError::Codec(c));
                    },
                }
            },
            None => {
                let tag = leaf_of(files[i].path.as_str());
                file_msgs_plain(&tag, &files[i].content)
            },
        };
        proof {
            let fmv = msgs_view(fm@);
            let fpair = fv[i as int];
            assert(forall|j: int|
                0 <= j < fm@.len() ==> #[trigger] fmv[j] == (fm@[j].file_name@, fm@[j].payload@));
            match secret {
                Some(s) => {
                    let rpair = (fpair.0.skip(pre.len() as int), fpair.1);
                    assert(rel_entries(fv.take(i as int), pre).push(rpair) =~= rel_entries(
                        fv.take(i + 1),
                        pre,
                    ));
                    lemma_backup_wire_snoc(
                        rel_entries(fv.take(i as int), pre),
                        s@,
                        msgs_view(out@),
                        rpair,
                        fmv,
                    );
                },
                None => {
                    let lpair = (leaf_spec(fpair.0), fpair.1);
                    assert(leaf_entries(fv.take(i as int)).push(lpair) =~= leaf_entries(
                        fv.take(i + 1),
                    ));
                    lemma_relay_wire_snoc(leaf_entries(fv.take(i as int)), msgs_view(out@), lpair, fmv);
                },
            }
        }
        let ghost fm_snap = fm@;
        out.append(&mut fm);
        proof {
            assert(out@ == out_before + fm_snap);
            assert(msgs_view(out@) =~= msgs_view(out_before) + msgs_view(fm_snap));
            assert(forall|j: int|
                0 <= j < out@.len() ==> !(#[trigger] out@[j]).done);
        }
        i = i + 1;
    }
    proof {
        assert(fv.take(files@.len() as int) =~= fv);
    }
    let ghost body = out@;
    out.push(ChunkMsg { file_name: String::new(), done: true, payload: Vec::new() });
    proof {
        assert(out@.drop_last() =~= body);
    }
    Ok(out)
}

/// What a receiving agent's store holds after a sequence of chunks.
pub open spec fn recv_fold(
    files: Seq<(Seq<char>, Seq<u8>)>,
    msgs: Seq<(Seq<char>, Seq<u8>)>,
) -> Seq<(Seq<char>, Seq<u8>)>
    decreases msgs.len(),
{
    if msgs.len() == 0 {
        files
    } else {
        recv_fold(recv_update(files, msgs[0].0, msgs[0].1), msgs.skip(1))
    }
}

pub proof fn lemma_recv_fold_concat(
    files: Seq<(Seq<char>, Seq<u8>)>,
    a: Seq<(Seq<char>, Seq<u8>)>,
    b: Seq<(Seq<char>, Seq<u8>)>,
)
    ensures
        recv_fold(files, a + b) == recv_fold(recv_fold(files, a), b),
    decreases a.len(),
{
    if a.len() == 0 {
        assert(a + b =~= b);
    } else {
        assert((a + b)[0] == a[0]);
        assert((a + b).skip(1) =~= a.skip(1) + b);
        lemma_recv_fold_concat(recv_update(files, a[0].0, a[0].1), a.skip(1), b);
    }
}

pub proof fn lemma_recv_fold_snoc(
    files: Seq<(Seq<char>, Seq<u8>)>,
    msgs: Seq<(Seq<char>, Seq<u8>)>,
    m: (Seq<char>, Seq<u8>),
)
    ensures
        recv_fold(files, msgs.push(m)) == recv_update(recv_fold(files, msgs), m.0, m.1),
{
    reveal_with_fuel(recv_fold, 3);
    assert(msgs.push(m) =~= msgs + seq![m]);
    lemma_recv_fold_concat(files, msgs, seq![m]);
    assert(seq![m].skip(1) =~= Seq::<(Seq<char>, Seq<u8>)>::empty());
    assert(recv_fold(recv_fold(files, msgs), seq![m]) == recv_update(
        recv_fold(files, msgs),
        m.0,
        m.1,
    ));
}

/// Handle one arriving chunk: append it to the file its tag names, or, on
/// the terminal chunk, change nothing and report the transfer finished.
pub fn handle_chunk(store: &mut Store, msg: &ChunkMsg) -> (done: bool)
    requires
        old(store).wf(),
    ensures
        final(store).wf(),
        done == msg.done,
        msg.done ==> *final(store) == *old(store),
        !msg.done ==> final(store).files_view() == recv_update(
            old(store).files_view(),
            msg.file_name@,
            msg.payload@,
        ) && final(store).dirs_view() == old(store).dirs_view(),
{
    if msg.done {
        true
    } else {
        store.apply_chunk(&msg.file_name, msg.payload.as_slice());
        false
    }
}

/// Receive a whole wire: apply each chunk in order and stop at the terminal
/// one.  The wire carries no terminal chunk before its last message.
pub fn receive_wire(store: &mut Store, wire: &Vec<ChunkMsg>) -> (done: bool)
    requires
        old(store).wf(),
        forall|i: int| 0 <= i < wire@.len() - 1 ==> !(#[trigger] wire@[i]).done,
    ensures
        final(store).wf(),
        done == (wire@.len() > 0 && wire@.last().done),
        done ==> final(store).files_view() == recv_fold(
            old(store).files_view(),
            msgs_view(wire@.drop_last()),
        ),
        !done ==> final(store).files_view() == recv_fold(
            old(store).files_view(),
            msgs_view(wire@),
        ),
{
    let ghost start = old(store).files_view();
    let mut i: usize = 0;
    proof {
        assert(msgs_view(wire@.take(0)) =~= Seq::<(Seq<char>, Seq<u8>)>::empty());
    }
    while i < wire.len()
        invariant
            i <= wire@.len(),
            start == old(store).files_view(),
            store.wf(),
            forall|j: int| 0 <= j < wire@.len() - 1 ==> !(#[trigger] wire@[j]).done,
            forall|j: int| 0 <= j < i ==> !(#[trigger] wire@[j]).done,
            store.files_view() == recv_fold(start, msgs_view(wire@.take(i as int))),
        decreases wire@.len() - i,
    {
        let done = handle_chunk(store, &wire[i]);
        if done {
            proof {
                assert(i == wire@.len() - 1);
                assert(wire@.take(i as int) =~= wire@.drop_last());
            }
            return true;
        }
        proof {
            let m = (wire@[i as int].file_name@, wire@[i as int].payload@);
            lemma_recv_fold_snoc(start, msgs_view(wire@.take(i as int)), m);
            assert(msgs_view(wire@.take(i + 1)) =~= msgs_view(wire@.take(i as int)).push(m));
        }
        i = i + 1;
    }
    proof {
        assert(wire@.take(wire@.len() as int) =~= wire@);
        if wire@.len() > 0 {
            assert(!wire@[wire@.len() - 1].done);
        }
    }
    false
}

/// Chunks arriving for the file that was written last keep extending it.
proof fn lemma_recv_extend(
    files: Seq<(Seq<char>, Seq<u8>)>,
    tag: Seq<char>,
    msgs: Seq<(Seq<char>, Seq<u8>)>,
)
    requires
        files.len() >= 1,
        files.last().0 == tag,
        forall|i: int| 0 <= i < files.len() - 1 ==> (#[trigger] files[i]).0 != tag,
        msgs.len() >= 1,
        forall|i: int| 0 <= i < msgs.len() ==> (#[trigger] msgs[i]).0 == tag,
    ensures
        recv_fold(files, msgs) == files.drop_last().push(
            (tag, files.last().1 + crate::chunks::concat_all(payloads(msgs))),
        ),
    decreases msgs.len(),
{
    let n = files.len() as int;
    crate::store::lemma_find_path_at(files, tag, n - 1);
    let p0 = msgs[0].1;
    let files2 = files.remove(n - 1).push((tag, files.last().1 + p0));
    assert(recv_update(files, msgs[0].0, msgs[0].1) == files2);
    assert(files.remove(n - 1) =~= files.drop_last());
    if msgs.len() == 1 {
        assert(msgs.skip(1) =~= Seq::<(Seq<char>, Seq<u8>)>::empty());
        assert(recv_fold(files2, msgs.skip(1)) == files2);
        assert(payloads(msgs) =~= seq![p0]);
        crate::chunks::lemma_concat_all_single(p0);
    } else {
        let rest = msgs.skip(1);
        assert(files2.last() == (tag, files.last().1 + p0));
        assert(files2.len() == files.len());
        assert(forall|i: int|
            0 <= i < files2.len() - 1 ==> #[trigger] files2[i] == files.drop_last()[i]);
        assert(forall|i: int| 0 <= i < rest.len() ==> (#[trigger] rest[i]).0 == tag);
        lemma_recv_extend(files2, tag, rest);
        assert(files2.drop_last() =~= files.drop_last());
        assert(payloads(rest) =~= payloads(msgs).skip(1));
        assert(crate::chunks::concat_all(payloads(msgs)) == p0 + crate::chunks::concat_all(
            payloads(msgs).skip(1),
        )) by {
            assert(payloads(msgs)[0] == p0);
        }
        assert((files.last().1 + p0) + crate::chunks::concat_all(payloads(rest))
            =~= files.last().1 + crate::chunks::concat_all(payloads(msgs)));
    }
}

/// A file whose tag is fresh arrives as exactly one new entry whose content
/// is the concatenation of its chunk payloads, in order.
proof fn lemma_recv_file(
    files: Seq<(Seq<char>, Seq<u8>)>,
    tag: Seq<char>,
    msgs: Seq<(Seq<char>, Seq<u8>)>,
)
    requires
        forall|i: int| 0 <= i < files.len() ==> (#[trigger] files[i]).0 != tag,
        msgs.len() >= 1,
        forall|i: int| 0 <= i < msgs.len() ==> (#[trigger] msgs[i]).0 == tag,
    ensures
        recv_fold(files, msgs) == files.push(
            (tag, crate::chunks::concat_all(payloads(msgs))),
        ),
    decreases msgs.len(),
{
    crate::store::lemma_find_path(files, tag);
    if crate::store::find_path(files, tag) >= 0 {
        assert(files[crate::store::find_path(files, tag)].0 == tag);
        assert(false);
    }
    let p0 = msgs[0].1;
    let files1 = files.push((tag, p0));
    assert(recv_update(files, msgs[0].0, msgs[0].1) == files1);
    if msgs.len() == 1 {
        assert(msgs.skip(1) =~= Seq::<(Seq<char>, Seq<u8>)>::empty());
        assert(recv_fold(files1, msgs.skip(1)) == files1);
        assert(payloads(msgs) =~= seq![p0]);
        crate::chunks::lemma_concat_all_single(p0);
    } else {
        let rest = msgs.skip(1);
        assert(files1.last() == (tag, p0));
        assert(forall|i: int|
            0 <= i < files1.len() - 1 ==> #[trigger] files1[i] == files[i]);
        assert(forall|i: int| 0 <= i < rest.len() ==> (#[trigger] rest[i]).0 == tag);
        lemma_recv_extend(files1, tag, rest);
        assert(files1.drop_last() =~= files);
        assert(payloads(rest) =~= payloads(msgs).skip(1));
        assert(crate::chunks::concat_all(payloads(msgs)) == p0 + crate::chunks::concat_all(
            payloads(msgs).skip(1),
        )) by {
            assert(payloads(msgs)[0] == p0);
        }
        assert(p0 + crate::chunks::concat_all(payloads(rest)) =~= crate::chunks::concat_all(
            payloads(msgs),
        ));
    }
}

/// Chunk bookkeeping of a stored file: the payloads of a correct encrypted
/// file wire, concatenated in order, read back at the encrypted chunk size
/// (the final piece being whatever remains) decrypt to exactly the file's
/// content.
pub proof fn lemma_file_wire_decrypts(
    tag: Seq<char>,
    path: Seq<char>,
    content: Seq<u8>,
    secret: Seq<char>,
    msgs: Seq<(Seq<char>, Seq<u8>)>,
)
    requires
        file_wire_ok(tag, path, content, secret, msgs),
    ensures
        crate::restore::decrypt_file_spec(
            crate::chunks::concat_all(payloads(msgs)),
            secret,
        ) == Some(content),
{
    let pcs = chunks_of(content, CHUNK_SIZE as int);
    let ps = payloads(msgs);
    let cat = crate::chunks::concat_all(ps);
    lemma_chunks_shape(content, CHUNK_SIZE as int);
    assert(ps.len() == pcs.len());
    assert forall|i: int| 0 <= i < ps.len() - 1 implies (#[trigger] ps[i]).len()
        == crate::codec::ENCRYPTED_CHUNK_SIZE as int by {
        assert(encrypted_chunk_ok(pcs[i], secret, msgs[i].1));
        assert(pcs[i].len() == CHUNK_SIZE);
    }
    assert(encrypted_chunk_ok(pcs.last(), secret, msgs[msgs.len() - 1].1));
    assert(ps.last() == msgs[msgs.len() - 1].1);
    assert(1 <= ps.last().len() <= crate::codec::ENCRYPTED_CHUNK_SIZE as int);
    crate::chunks::lemma_rechunk(ps, crate::codec::ENCRYPTED_CHUNK_SIZE as int);
    assert(chunks_of(cat, crate::codec::ENCRYPTED_CHUNK_SIZE as int) == ps);
    assert forall|i: int| 0 <= i < ps.len() implies crate::codec::decrypt_spec(
        #[trigger] ps[i],
        secret,
    ) is Some by {
        assert(encrypted_chunk_ok(pcs[i], secret, msgs[i].1));
        assert(ps[i] == msgs[i].1);
    }
    let opened = ps.map_values(|p: Seq<u8>| crate::codec::decrypt_spec(p, secret)->Some_0);
    assert forall|i: int| 0 <= i < opened.len() implies #[trigger] opened[i] == pcs[i] by {
        assert(encrypted_chunk_ok(pcs[i], secret, msgs[i].1));
        assert(ps[i] == msgs[i].1);
    }
    assert(opened =~= pcs);
    crate::chunks::lemma_chunks_concat(content, CHUNK_SIZE as int);
}

/// Receiving a correct encrypted wire for distinct files, into a store
/// holding no file of theirs, appends one entry per file, in order, each of
/// which decrypts back to its file.
proof fn lemma_recv_backup(
    acc: Seq<(Seq<char>, Seq<u8>)>,
    files: Seq<(Seq<char>, Seq<u8>)>,
    secret: Seq<char>,
    msgs: Seq<(Seq<char>, Seq<u8>)>,
)
    requires
        backup_wire_ok(files, secret, msgs),
        forall|i: int, j: int|
            #![trigger files[i], files[j]]
            0 <= i < j < files.len() ==> files[i].0 != files[j].0,
        forall|a: int, i: int|
            #![trigger acc[a], files[i]]
            0 <= a < acc.len() && 0 <= i < files.len() ==> decrypt_name_spec(acc[a].0, secret)
                != Some(files[i].0),
    ensures
        recv_fold(acc, msgs).len() == acc.len() + files.len(),
        forall|a: int| 0 <= a < acc.len() ==> #[trigger] recv_fold(acc, msgs)[a] == acc[a],
        forall|i: int|
            0 <= i < files.len() ==> crate::restore::decrypt_entry_spec(
                recv_fold(acc, msgs)[acc.len() + i].0,
                recv_fold(acc, msgs)[acc.len() + i].1,
                secret,
            ) == Some(((#[trigger] files[i]).0, files[i].1)),
    decreases files.len(),
{
    if files.len() == 0 {
        assert(recv_fold(acc, msgs) == acc);
    } else {
        let k = chunks_of(files[0].1, CHUNK_SIZE as int).len() as int;
        lemma_chunks_shape(files[0].1, CHUNK_SIZE as int);
        let head = msgs.take(k);
        let rest = msgs.skip(k);
        let tag = msgs[0].0;
        assert(head[0] == msgs[0]);
        assert(file_wire_ok(tag, files[0].0, files[0].1, secret, head));
        assert(msgs =~= head + rest);
        lemma_recv_fold_concat(acc, head, rest);
        assert forall|a: int| 0 <= a < acc.len() implies (#[trigger] acc[a]).0 != tag by {
            if acc[a].0 == tag {
                assert(decrypt_name_spec(acc[a].0, secret) == Some(files[0].0));
            }
        }
        lemma_recv_file(acc, tag, head);
        let cat = crate::chunks::concat_all(payloads(head));
        let acc2 = acc.push((tag, cat));
        assert(recv_fold(acc, head) == acc2);
        lemma_file_wire_decrypts(tag, files[0].0, files[0].1, secret, head);
        assert(crate::restore::decrypt_entry_spec(tag, cat, secret) == Some(
            (files[0].0, files[0].1),
        ));
        let files2 = files.skip(1);
        assert(forall|i: int, j: int|
            #![trigger files2[i], files2[j]]
            0 <= i < j < files2.len() ==> files2[i].0 != files2[j].0);
        assert forall|a: int, i: int|
            #![trigger acc2[a], files2[i]]
            0 <= a < acc2.len() && 0 <= i < files2.len() implies decrypt_name_spec(
            acc2[a].0,
            secret,
        ) != Some(files2[i].0) by {
            assert(files2[i] == files[i + 1]);
            if a < acc.len() {
                assert(acc2[a] == acc[a]);
                assert(decrypt_name_spec(acc[a].0, secret) != Some(files[i + 1].0));
            } else {
                assert(acc2[a].0 == tag);
                assert(files[0].0 != files[i + 1].0);
            }
        }
        lemma_recv_backup(acc2, files2, secret, rest);
        assert(recv_fold(acc, msgs) == recv_fold(acc2, rest));
        assert forall|i: int| 0 <= i < files.len() implies crate::restore::decrypt_entry_spec(
            recv_fold(acc, msgs)[acc.len() + i].0,
            recv_fold(acc, msgs)[acc.len() + i].1,
            secret,
        ) == Some(((#[trigger] files[i]).0, files[i].1)) by {
            if i == 0 {
                assert(recv_fold(acc2, rest)[acc.len() as int] == acc2[acc.len() as int]);
            } else {
                assert(files2[i - 1] == files[i]);
            }
        }
    }
}

/// Round trip of a backup: the chunk stream a sender produces for a file
/// tree, received into an empty store, decrypts back to exactly that tree,
/// byte for byte and path for path.
pub proof fn lemma_backup_round_trip(
    files: Seq<(Seq<char>, Seq<u8>)>,
    secret: Seq<char>,
    msgs: Seq<(Seq<char>, Seq<u8>)>,
)
    requires
        backup_wire_ok(files, secret, msgs),
        forall|i: int, j: int|
            #![trigger files[i], files[j]]
            0 <= i < j < files.len() ==> files[i].0 != files[j].0,
    ensures
        crate::restore::decrypt_tree_spec(
            recv_fold(Seq::empty(), msgs),
            secret,
        ) == Some(files),
{
    let acc = Seq::<(Seq<char>, Seq<u8>)>::empty();
    lemma_recv_backup(acc, files, secret, msgs);
    let out = recv_fold(acc, msgs);
    assert forall|i: int| 0 <= i < files.len() implies crate::restore::decrypt_entry_spec(
        (#[trigger] out[i]).0,
        out[i].1,
        secret,
    ) == Some(files[i]) by {
        assert(files[i] == (files[i].0, files[i].1));
    }
    crate::restore::lemma_decrypt_tree_all(out, secret, files);
}


/// Round trip through the restore step as well: the tree that a successful
/// decryption of the received backup yields is the original file tree, and
/// writing it into an empty staging store reproduces it file for file.
pub proof fn lemma_restore_round_trip(
    files: Seq<(Seq<char>, Seq<u8>)>,
    secret: Seq<char>,
    msgs: Seq<(Seq<char>, Seq<u8>)>,
)
    requires
        backup_wire_ok(files, secret, msgs),
        forall|i: int, j: int|
            #![trigger files[i], files[j]]
            0 <= i < j < files.len() ==> files[i].0 != files[j].0,
    ensures
        crate::restore::decrypt_tree_spec(
            recv_fold(Seq::empty(), msgs),
            secret,
        ) == Some(files),
        crate::restore::build_files(files) == files,
{
    lemma_backup_round_trip(files, secret, msgs);
    crate::restore::lemma_build_files_distinct(files);
}

/// Receiving a correct plain wire for files with distinct names, into a
/// store holding none of them, reproduces those files exactly, in order.
pub proof fn lemma_relay_round_trip(
    acc: Seq<(Seq<char>, Seq<u8>)>,
    files: Seq<(Seq<char>, Seq<u8>)>,
    msgs: Seq<(Seq<char>, Seq<u8>)>,
)
    requires
        relay_wire_ok(files, msgs),
        forall|i: int, j: int|
            #![trigger files[i], files[j]]
            0 <= i < j < files.len() ==> files[i].0 != files[j].0,
        forall|a: int, i: int|
            #![trigger acc[a], files[i]]
            0 <= a < acc.len() && 0 <= i < files.len() ==> acc[a].0 != files[i].0,
    ensures
        recv_fold(acc, msgs) == acc + files,
    decreases files.len(),
{
    if files.len() == 0 {
        assert(recv_fold(acc, msgs) == acc);
        assert(acc + files =~= acc);
    } else {
        let k = chunks_of(files[0].1, CHUNK_SIZE as int).len() as int;
        lemma_chunks_shape(files[0].1, CHUNK_SIZE as int);
        let head = msgs.take(k);
        let rest = msgs.skip(k);
        let tag = files[0].0;
        assert(file_relay_ok(tag, files[0].1, head));
        assert(msgs =~= head + rest);
        lemma_recv_fold_concat(acc, head, rest);
        lemma_recv_file(acc, tag, head);
        assert forall|i: int| 0 <= i < head.len() implies #[trigger] payloads(head)[i]
            == chunks_of(files[0].1, CHUNK_SIZE as int)[i] by {
            assert(head[i].1 == chunks_of(files[0].1, CHUNK_SIZE as int)[i]);
        }
        assert(payloads(head) =~= chunks_of(files[0].1, CHUNK_SIZE as int));
        crate::chunks::lemma_chunks_concat(files[0].1, CHUNK_SIZE as int);
        let acc2 = acc.push((tag, files[0].1));
        assert(recv_fold(acc, head) == acc2);
        let files2 = files.skip(1);
        assert(forall|i: int, j: int|
            #![trigger files2[i], files2[j]]
            0 <= i < j < files2.len() ==> files2[i].0 != files2[j].0);
        assert forall|a: int, i: int|
            #![trigger acc2[a], files2[i]]
            0 <= a < acc2.len() && 0 <= i < files2.len() implies acc2[a].0 != files2[i].0 by {
            assert(files2[i] == files[i + 1]);
            if a < acc.len() {
                assert(acc2[a] == acc[a]);
            } else {
                assert(acc2[a].0 == files[0].0);
                assert(files[0].0 != files[i + 1].0);
            }
        }
        lemma_relay_round_trip(acc2, files2, rest);
        assert(files[0] == (files[0].0, files[0].1));
        assert(acc2 + files2 =~= acc + files);
    }
}

} // verus!
