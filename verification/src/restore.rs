//! Decrypting a retrieved backup, all or nothing.
//!
//! A retrieved backup is a set of files whose names are encrypted and
//! base64-encoded relative paths and whose contents are sequences of
//! fixed-size encrypted chunks.  Restoring decrypts every name and every
//! chunk into a staging tree and replaces the live tree only when all of
//! them succeed; one failure leaves the live tree untouched.

use vstd::prelude::*;
use crate::chunks::{chunks_of, concat_all, lemma_concat_all_push, split_chunks};
use crate::codec::{
    decrypt_data, decrypt_name, decrypt_name_spec, decrypt_spec, CodecError, ENCRYPTED_CHUNK_SIZE,
};
use crate::store::{entries_view, FileEntry, Store};

verus! {

/// What decrypting a whole stored file yields: the content is cut at the
/// encrypted chunk size, every piece must decrypt, and the plaintexts are
/// joined in order.
pub open spec fn decrypt_file_spec(data: Seq<u8>, secret: Seq<char>) -> Option<Seq<u8>> {
    let pieces = chunks_of(data, ENCRYPTED_CHUNK_SIZE as int);
    if forall|i: int| 0 <= i < pieces.len() ==> decrypt_spec(#[trigger] pieces[i], secret)
        is Some {
        Some(concat_all(pieces.map_values(|p: Seq<u8>| decrypt_spec(p, secret)->Some_0)))
    } else {
        None
    }
}

/// What decrypting one stored entry (encrypted name, encrypted content)
/// yields: the original relative path and the original bytes.
pub open spec fn decrypt_entry_spec(name: Seq<char>, data: Seq<u8>, secret: Seq<char>) -> Option<
    (Seq<char>, Seq<u8>),
> {
    match decrypt_name_spec(name, secret) {
        None => None,
        Some(path) => match decrypt_file_spec(data, secret) {
            None => None,
            Some(content) => Some((path, content)),
        },
    }
}

/// What decrypting a whole stored tree yields: every entry in order, or
/// nothing as soon as any entry fails.
pub open spec fn decrypt_tree_spec(
    entries: Seq<(Seq<char>, Seq<u8>)>,
    secret: Seq<char>,
) -> Option<Seq<(Seq<char>, Seq<u8>)>>
    decreases entries.len(),
{
    if entries.len() == 0 {
        Some(Seq::empty())
    } else {
        match decrypt_entry_spec(entries[0].0, entries[0].1, secret) {
            None => None,
            Some(fe) => match decrypt_tree_spec(entries.skip(1), secret) {
                None => None,
                Some(rest) => Some(seq![fe] + rest),
            },
        }
    }
}

/// A tree decrypts entry by entry.
pub proof fn lemma_decrypt_tree_all(
    entries: Seq<(Seq<char>, Seq<u8>)>,
    secret: Seq<char>,
    out: Seq<(Seq<char>, Seq<u8>)>,
)
    requires
        out.len() == entries.len(),
        forall|i: int|
            0 <= i < entries.len() ==> decrypt_entry_spec(
                (#[trigger] entries[i]).0,
                entries[i].1,
                secret,
            ) == Some(out[i]),
    ensures
        decrypt_tree_spec(entries, secret) == Some(out),
    decreases entries.len(),
{
    if entries.len() == 0 {
        assert(out =~= Seq::<(Seq<char>, Seq<u8>)>::empty());
    } else {
        assert(forall|i: int|
            0 <= i < entries.len() - 1 ==> #[trigger] entries.skip(1)[i] == entries[i + 1]);
        lemma_decrypt_tree_all(entries.skip(1), secret, out.skip(1));
        assert(out =~= seq![out[0]] + out.skip(1));
    }
}

/// One failing entry fails the whole tree.
pub proof fn lemma_decrypt_tree_any_failure(
    entries: Seq<(Seq<char>, Seq<u8>)>,
    secret: Seq<char>,
    k: int,
)
    requires
        0 <= k < entries.len(),
        decrypt_entry_spec(entries[k].0, entries[k].1, secret) is None,
    ensures
        decrypt_tree_spec(entries, secret) is None,
    decreases entries.len(),
{
    if k == 0 {
    } else {
        assert(entries.skip(1)[k - 1] == entries[k]);
        lemma_decrypt_tree_any_failure(entries.skip(1), secret, k - 1);
    }
}

/// Decrypt one stored file's bytes: cut at the encrypted chunk size (the
/// final piece is whatever remains), decrypt each piece, join the results.
pub fn decrypt_file(data: &[u8], secret: &str) -> (r: Result<Vec<u8>, CodecError>)
    ensures
        r matches Ok(p) ==> decrypt_file_spec(data@, secret@) == Some(p@),
        r matches Err(e) ==> decrypt_file_spec(data@, secret@) is None && e
            == CodecError::DecryptionFailed,
{
    let ghost pieces = chunks_of(data@, ENCRYPTED_CHUNK_SIZE as int);
    let ghost opened = pieces.map_values(|p: Seq<u8>| decrypt_spec(p, secret@)->Some_0);
    let cts = split_chunks(data, ENCRYPTED_CHUNK_SIZE);
    let mut out: Vec<u8> = Vec::new();
    let mut i: usize = 0;
    proof {
        assert(out@ =~= concat_all(opened.take(0)));
    }
    while i < cts.len()
        invariant
            i <= cts@.len(),
            pieces == chunks_of(data@, ENCRYPTED_CHUNK_SIZE as int),
            cts@.len() == pieces.len(),
            forall|j: int| 0 <= j < cts@.len() ==> (#[trigger] cts@[j])@ == pieces[j],
            opened == pieces.map_values(|p: Seq<u8>| decrypt_spec(p, secret@)->Some_0),
            forall|j: int| 0 <= j < i ==> decrypt_spec(#[trigger] pieces[j], secret@) is Some,
            out@ == concat_all(opened.take(i as int)),
        decreases cts@.len() - i,
    {
        match decrypt_data(cts[i].as_slice(), secret) {
            Ok(p) => {
                proof {
                    assert(decrypt_spec(pieces[i as int], secret@) == Some(p@));
                    assert(opened[i as int] == p@);
                    lemma_concat_all_push(opened.take(i as int), opened[i as int]);
                    assert(opened.take(i + 1) =~= opened.take(i as int).push(
                        opened[i as int],
                    ));
                }
                out.extend_from_slice(p.as_slice());
                proof {
                    assert(out@ =~= concat_all(opened.take(i as int)) + opened[i as int]);
                }
            },
            Err(e) => {
                proof {
                    assert(decrypt_spec(pieces[i as int], secret@) is None);
                    assert(!(forall|j: int|
                        0 <= j < pieces.len() ==> decrypt_spec(#[trigger] pieces[j], secret@)
                            is Some));
                }
                return Err(e);
            },
        }
        i = i + 1;
    }
    proof {
        assert(opened.take(cts@.len() as int) =~= opened);
    }
    Ok(out)
}

/// Decrypt every stored entry of a retrieved backup into the tree it was
/// made from.  The first failure aborts the whole operation.
pub fn decrypt_backup(entries: &Vec<FileEntry>, secret: &str) -> (r: Result<
    Vec<FileEntry>,
    CodecError,
>)
    ensures
        r matches Ok(out) ==> decrypt_tree_spec(entries_view(entries@), secret@) == Some(
            entries_view(out@),
        ),
        r matches Err(e) ==> decrypt_tree_spec(entries_view(entries@), secret@) is None,
{
    let ghost evs = entries_view(entries@);
    let mut out: Vec<FileEntry> = Vec::new();
    let mut i: usize = 0;
    while i < entries.len()
        invariant
            i <= entries@.len(),
            evs == entries_view(entries@),
            out@.len() == i,
            forall|j: int|
                0 <= j < i ==> decrypt_entry_spec(
                    (#[trigger] evs[j]).0,
                    evs[j].1,
                    secret@,
                ) == Some(entries_view(out@)[j]),
        decreases entries@.len() - i,
    {
        let path = match decrypt_name(entries[i].path.as_str(), secret) {
            Ok(p) => p,
            Err(_) => {
                proof {
                    assert(decrypt_entry_spec(evs[i as int].0, evs[i as int].1, secret@)
                        is None);
                    lemma_decrypt_tree_any_failure(evs, secret@, i as int);
                }
                return Err(CodecError::DecryptionFailed);
            },
        };
        let content = match decrypt_file(entries[i].content.as_slice(), secret) {
            Ok(c) => c,
            Err(_) => {
                proof {
                    assert(decrypt_entry_spec(evs[i as int].0, evs[i as int].1, secret@)
                        is None);
                    lemma_decrypt_tree_any_failure(evs, secret@, i as int);
                }
                return Err(CodecError::DecryptionFailed);
            },
        };
        out.push(FileEntry { path, content });
        i = i + 1;
    }
    proof {
        lemma_decrypt_tree_all(evs, secret@, entries_view(out@));
    }
    Ok(out)
}

/// The files of a staging tree built by writing a sequence of decrypted
/// files, in order, into an empty store.
pub open spec fn build_files(files: Seq<(Seq<char>, Seq<u8>)>) -> Seq<(Seq<char>, Seq<u8>)> {
    crate::store::write_all(Seq::empty(), files)
}

/// The directories of that staging tree: every written file's ancestors.
pub open spec fn build_dirs(files: Seq<(Seq<char>, Seq<u8>)>) -> Seq<Seq<char>> {
    crate::store::dirs_all(Seq::empty(), files)
}

/// Writing files with pairwise distinct paths reproduces them exactly.
pub proof fn lemma_build_files_distinct(files: Seq<(Seq<char>, Seq<u8>)>)
    requires
        forall|i: int, j: int|
            #![trigger files[i], files[j]]
            0 <= i < j < files.len() ==> files[i].0 != files[j].0,
    ensures
        build_files(files) == files,
    decreases files.len(),
{
    if files.len() == 0 {
        assert(build_files(files) =~= files);
    } else {
        let front = files.drop_last();
        assert(forall|i: int| 0 <= i < front.len() ==> #[trigger] front[i] == files[i]);
        lemma_build_files_distinct(front);
        crate::store::lemma_find_path(front, files.last().0);
        let k = crate::store::find_path(front, files.last().0);
        if k >= 0 {
            assert(front[k].0 == files.last().0);
            assert(false);
        }
        assert(files.last() == (files.last().0, files.last().1));
        assert(build_files(files) =~= front.push(files.last()));
        assert(front.push(files.last()) =~= files);
    }
}

/// Restore a retrieved backup into the live tree: decrypt everything into a
/// staging tree and replace the live tree only when every file succeeded.
/// Any failure leaves the live tree exactly as it was.
pub fn restore_from_quarantine(live: &mut Store, quarantine: &Vec<FileEntry>, secret: &str) -> (r:
    Result<(), CodecError>)
    requires
        old(live).wf(),
    ensures
        r is Ok ==> decrypt_tree_spec(entries_view(quarantine@), secret@) is Some
            && final(live).files_view() == build_files(
            decrypt_tree_spec(entries_view(quarantine@), secret@)->Some_0,
        ) && final(live).dirs_view() == build_dirs(
            decrypt_tree_spec(entries_view(quarantine@), secret@)->Some_0,
        ) && final(live).wf(),
        r matches Err(e) ==> *final(live) == *old(live) && decrypt_tree_spec(
            entries_view(quarantine@),
            secret@,
        ) is None,
{
    let tree = match decrypt_backup(quarantine, secret) {
        Ok(t) => t,
        Err(e) => return Err(e),
    };
    let ghost tv = entries_view(tree@);
    let mut staging = Store::new();
    let mut i: usize = 0;
    proof {
        assert(tv.take(0) =~= Seq::<(Seq<char>, Seq<u8>)>::empty());
    }
    while i < tree.len()
        invariant
            i <= tree@.len(),
            tv == entries_view(tree@),
            staging.wf(),
            staging.files_view() == build_files(tv.take(i as int)),
            staging.dirs_view() == build_dirs(tv.take(i as int)),
        decreases tree@.len() - i,
    {
        staging.ensure_parents(tree[i].path.as_str());
        let content = tree[i].content.clone();
        proof {
            assert(content@ =~= tree@[i as int].content@);
        }
        staging.put(&tree[i].path, content);
        proof {
            assert(tv.take(i + 1).drop_last() =~= tv.take(i as int));
            assert(tv.take(i + 1).last() == tv[i as int]);
        }
        i = i + 1;
    }
    proof {
        assert(tv.take(tree@.len() as int) =~= tv);
    }
    *live = staging;
    Ok(())
}

} // verus!
