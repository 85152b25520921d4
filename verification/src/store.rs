//! A model of the node-local file store that a transfer works against.
//!
//! The host's real directory store is reached over messages; the library
//! works on this plain model — a list of files (path and content) and a list
//! of directories — and the host mirrors each operation onto the real store.
//! Paths are unique: the model is a map presented in insertion order.

use vstd::prelude::*;
use vstd::string::StrSliceExecFns;
use vstd::string::StringExecFns;
use crate::snapshot::{record_ancestors, record_ancestors_from};

verus! {

/// One file: a path (relative or store-absolute, as the caller keeps it) and
/// its full content.
pub struct FileEntry {
    pub path: String,
    pub content: Vec<u8>,
}

impl FileEntry {
    pub fn new(path: String, content: Vec<u8>) -> (e: FileEntry)
        ensures
            e.path == path,
            e.content == content,
    {
        FileEntry { path, content }
    }
}

/// The entries as the pairs the specifications speak of.
pub open spec fn entries_view(files: Seq<FileEntry>) -> Seq<(Seq<char>, Seq<u8>)> {
    files.map_values(|e: FileEntry| (e.path@, e.content@))
}

/// Index of the entry named `name`, searching from the end; `-1` when absent.
pub open spec fn find_path(files: Seq<(Seq<char>, Seq<u8>)>, name: Seq<char>) -> int
    decreases files.len(),
{
    if files.len() == 0 {
        -1
    } else if files.last().0 == name {
        files.len() - 1
    } else {
        find_path(files.drop_last(), name)
    }
}

pub proof fn lemma_find_path(files: Seq<(Seq<char>, Seq<u8>)>, name: Seq<char>)
    ensures
        -1 <= find_path(files, name) < files.len(),
        find_path(files, name) >= 0 ==> files[find_path(files, name)].0 == name,
        find_path(files, name) == -1 ==> forall|i: int|
            0 <= i < files.len() ==> (#[trigger] files[i]).0 != name,
    decreases files.len(),
{
    if files.len() == 0 {
    } else if files.last().0 == name {
    } else {
        lemma_find_path(files.drop_last(), name);
        assert(forall|i: int| 0 <= i < files.len() - 1 ==> files.drop_last()[i] == files[i]);
    }
}

/// An entry with nothing after it of the same name is the one found.
pub proof fn lemma_find_path_at(files: Seq<(Seq<char>, Seq<u8>)>, name: Seq<char>, k: int)
    requires
        0 <= k < files.len(),
        files[k].0 == name,
        forall|j: int| k < j < files.len() ==> (#[trigger] files[j]).0 != name,
    ensures
        find_path(files, name) == k,
    decreases files.len(),
{
    if k == files.len() - 1 {
    } else {
        assert(files.last().0 != name);
        assert(forall|i: int| 0 <= i < files.len() - 1 ==> files.drop_last()[i] == files[i]);
        lemma_find_path_at(files.drop_last(), name, k);
    }
}

/// The store's files after one chunk for `name` arrives: a present entry is
/// extended with the payload and moves to the end (as the most recently
/// written file); an absent one is created from the payload.
pub open spec fn recv_update(
    files: Seq<(Seq<char>, Seq<u8>)>,
    name: Seq<char>,
    payload: Seq<u8>,
) -> Seq<(Seq<char>, Seq<u8>)> {
    let i = find_path(files, name);
    if i >= 0 {
        files.remove(i).push((name, files[i].1 + payload))
    } else {
        files.push((name, payload))
    }
}

/// A present entry replaced whole, an absent one created.
pub open spec fn put_file(
    files: Seq<(Seq<char>, Seq<u8>)>,
    name: Seq<char>,
    content: Seq<u8>,
) -> Seq<(Seq<char>, Seq<u8>)> {
    let i = find_path(files, name);
    if i >= 0 {
        files.update(i, (name, content))
    } else {
        files.push((name, content))
    }
}

/// The model store: files and directories.
pub struct Store {
    pub files: Vec<FileEntry>,
    pub dirs: Vec<String>,
}

impl Store {
    pub open spec fn files_view(self) -> Seq<(Seq<char>, Seq<u8>)> {
        entries_view(self.files@)
    }

    pub open spec fn dirs_view(self) -> Seq<Seq<char>> {
        self.dirs@.map_values(|d: String| d@)
    }

    /// Well-formed: no two files share a path.
    pub open spec fn wf(self) -> bool {
        forall|i: int, j: int|
            #![trigger self.files_view()[i], self.files_view()[j]]
            0 <= i < j < self.files_view().len() ==> self.files_view()[i].0
                != self.files_view()[j].0
    }

    /// An empty store.
    pub fn new() -> (s: Store)
        ensures
            s.files_view() == Seq::<(Seq<char>, Seq<u8>)>::empty(),
            s.dirs_view() == Seq::<Seq<char>>::empty(),
            s.wf(),
    {
        let s = Store { files: Vec::new(), dirs: Vec::new() };
        proof {
            assert(s.files_view() =~= Seq::<(Seq<char>, Seq<u8>)>::empty());
            assert(s.dirs_view() =~= Seq::<Seq<char>>::empty());
        }
        s
    }

    /// Remove everything: the clean slate a receiving transfer starts from.
    pub fn clear(&mut self)
        ensures
            final(self).files_view() == Seq::<(Seq<char>, Seq<u8>)>::empty(),
            final(self).dirs_view() == Seq::<Seq<char>>::empty(),
            final(self).wf(),
    {
        self.files.clear();
        self.dirs.clear();
        proof {
            assert(self.files_view() =~= Seq::<(Seq<char>, Seq<u8>)>::empty());
            assert(self.dirs_view() =~= Seq::<Seq<char>>::empty());
        }
    }

    /// Whether a directory of this name exists.
    pub fn has_dir(&self, name: &String) -> (r: bool)
        ensures
            r == self.dirs_view().contains(name@),
    {
        let n = self.dirs.len();
        let mut i: usize = 0;
        while i < n
            invariant
                i <= n,
                n == self.dirs@.len(),
                forall|j: int| 0 <= j < i ==> self.dirs_view()[j] != name@,
            decreases n - i,
        {
            if self.dirs[i] == *name {
                assert(self.dirs_view()[i as int] == name@);
                return true;
            }
            i = i + 1;
        }
        proof {
            if self.dirs_view().contains(name@) {
                let j = choose|j: int|
                    0 <= j < self.dirs_view().len() && self.dirs_view()[j] == name@;
            }
        }
        false
    }

    /// Create every missing ancestor directory of `path`, in order.
    /// Creating one that exists is a no-op, never an error.
    pub fn ensure_parents(&mut self, path: &str)
        ensures
            final(self).dirs_view() == record_ancestors(old(self).dirs_view(), path@),
            final(self).files == old(self).files,
            final(self).wf() == old(self).wf(),
    {
        let n = path.unicode_len();
        let mut i: usize = 0;
        while i < n
            invariant
                i <= n,
                n == path@.len(),
                self.files == old(self).files,
                record_ancestors(old(self).dirs_view(), path@) == record_ancestors_from(
                    self.dirs_view(),
                    path@,
                    i as int,
                ),
            decreases n - i,
        {
            let ghost dirs_before = self.dirs_view();
            if path.get_char(i) == '/' {
                let prefix = String::from_str(path.substring_char(0, i));
                assert(prefix@ == path@.subrange(0, i as int));
                if !self.has_dir(&prefix) {
                    self.dirs.push(prefix);
                    proof {
                        assert(self.dirs_view() =~= dirs_before.push(
                            path@.subrange(0, i as int),
                        ));
                    }
                }
            }
            i = i + 1;
        }
        proof {
            assert(self.files_view() =~= old(self).files_view());
        }
    }

    /// Index of the file named `name`, when there is one.
    pub fn find_entry(&self, name: &String) -> (r: Option<usize>)
        ensures
            match r {
                Some(i) => i < self.files_view().len() && find_path(self.files_view(), name@)
                    == i,
                None => find_path(self.files_view(), name@) == -1,
            },
    {
        let n = self.files.len();
        let mut i: usize = n;
        while i > 0
            invariant
                i <= n,
                n == self.files@.len(),
                forall|j: int|
                    i <= j < n ==> (#[trigger] self.files_view()[j]).0 != name@,
            decreases i,
        {
            if self.files[i - 1].path == *name {
                proof {
                    assert(self.files_view()[i - 1].0 == name@);
                    lemma_find_path_at(self.files_view(), name@, i - 1);
                }
                return Some(i - 1);
            }
            assert(self.files_view()[i - 1].0 != name@);
            i = i - 1;
        }
        proof {
            lemma_find_path(self.files_view(), name@);
            if find_path(self.files_view(), name@) >= 0 {
                assert(self.files_view()[find_path(self.files_view(), name@)].0 == name@);
            }
        }
        None
    }

    /// Append one arriving chunk: the file is created on its first chunk and
    /// grown by each later one.
    pub fn apply_chunk(&mut self, name: &String, payload: &[u8])
        requires
            old(self).wf(),
        ensures
            final(self).files_view() == recv_update(old(self).files_view(), name@, payload@),
            final(self).dirs_view() == old(self).dirs_view(),
            final(self).wf(),
    {
        let ghost pre = self.files_view();
        proof {
            lemma_find_path(pre, name@);
        }
        match self.find_entry(name) {
            Some(i) => {
                let ghost k = i as int;
                let mut entry = self.files.remove(i);
                entry.content.extend_from_slice(payload);
                proof {
                    assert(entry.path@ == name@);
                    assert(entry.content@ =~= pre[k].1 + payload@);
                }
                self.files.push(entry);
                proof {
                    assert(self.files_view() =~= pre.remove(k).push(
                        (name@, pre[k].1 + payload@),
                    ));
                    lemma_recv_update_wf(pre, name@, payload@);
                }
            },
            None => {
                self.files.push(
                    FileEntry { path: name.clone(), content: vstd::slice::slice_to_vec(payload) },
                );
                proof {
                    assert(self.files_view() =~= pre.push((name@, payload@)));
                    lemma_recv_update_wf(pre, name@, payload@);
                }
            },
        }
    }

    /// Write a whole file: replace a present one, create an absent one.
    pub fn put(&mut self, name: &String, content: Vec<u8>)
        requires
            old(self).wf(),
        ensures
            final(self).files_view() == put_file(old(self).files_view(), name@, content@),
            final(self).dirs_view() == old(self).dirs_view(),
            final(self).wf(),
    {
        let ghost pre = self.files_view();
        proof {
            lemma_find_path(pre, name@);
        }
        match self.find_entry(name) {
            Some(i) => {
                let ghost k = i as int;
                let _ = self.files.remove(i);
                self.files.insert(i, FileEntry { path: name.clone(), content });
                proof {
                    assert(self.files_view() =~= pre.update(k, (name@, content@)));
                    lemma_put_file_wf(pre, name@, content@);
                }
            },
            None => {
                self.files.push(FileEntry { path: name.clone(), content });
                proof {
                    assert(self.files_view() =~= pre.push((name@, content@)));
                    lemma_put_file_wf(pre, name@, content@);
                }
            },
        }
    }

    /// The content of the file named `name`, when there is one.
    pub fn get(&self, name: &String) -> (r: Option<&Vec<u8>>)
        requires
            self.wf(),
        ensures
            match r {
                Some(c) => {
                    let i = find_path(self.files_view(), name@);
                    i >= 0 && c@ == self.files_view()[i].1
                },
                None => find_path(self.files_view(), name@) == -1,
            },
    {
        match self.find_entry(name) {
            Some(i) => Some(&self.files[i].content),
            None => None,
        }
    }
}

/// Receiving a chunk keeps paths unique.
pub proof fn lemma_recv_update_wf(
    files: Seq<(Seq<char>, Seq<u8>)>,
    name: Seq<char>,
    payload: Seq<u8>,
)
    requires
        forall|i: int, j: int|
            #![trigger files[i], files[j]]
            0 <= i < j < files.len() ==> files[i].0 != files[j].0,
    ensures
        forall|i: int, j: int|
            #![trigger recv_update(files, name, payload)[i], recv_update(files, name, payload)[j]]
            0 <= i < j < recv_update(files, name, payload).len() ==> recv_update(
                files,
                name,
                payload,
            )[i].0 != recv_update(files, name, payload)[j].0,
{
    let k = find_path(files, name);
    lemma_find_path(files, name);
    let out = recv_update(files, name, payload);
    if k >= 0 {
        let shrunk = files.remove(k);
        assert forall|i: int, j: int|
            0 <= i < j < out.len() implies #[trigger] out[i].0 != #[trigger] out[j].0 by {
            if j < out.len() - 1 {
                assert(out[i] == shrunk[i]);
                assert(out[j] == shrunk[j]);
            } else {
                assert(out[j].0 == name);
                assert(out[i] == shrunk[i]);
                if i < k {
                    assert(shrunk[i] == files[i]);
                    assert(files[i].0 != files[k].0);
                } else {
                    assert(shrunk[i] == files[i + 1]);
                    assert(files[k].0 != files[i + 1].0);
                }
            }
        }
    } else {
        assert forall|i: int, j: int|
            0 <= i < j < out.len() implies #[trigger] out[i].0 != #[trigger] out[j].0 by {
            if j == out.len() - 1 {
                assert(out[i] == files[i]);
                assert(files[i].0 != name);
            }
        }
    }
}

/// Writing a whole file keeps paths unique.
pub proof fn lemma_put_file_wf(
    files: Seq<(Seq<char>, Seq<u8>)>,
    name: Seq<char>,
    content: Seq<u8>,
)
    requires
        forall|i: int, j: int|
            #![trigger files[i], files[j]]
            0 <= i < j < files.len() ==> files[i].0 != files[j].0,
    ensures
        forall|i: int, j: int|
            #![trigger put_file(files, name, content)[i], put_file(files, name, content)[j]]
            0 <= i < j < put_file(files, name, content).len() ==> put_file(
                files,
                name,
                content,
            )[i].0 != put_file(files, name, content)[j].0,
{
    let k = find_path(files, name);
    lemma_find_path(files, name);
    let out = put_file(files, name, content);
    if k >= 0 {
        assert forall|i: int, j: int|
            0 <= i < j < out.len() implies #[trigger] out[i].0 != #[trigger] out[j].0 by {
            assert(files[i].0 != files[j].0);
            if i == k {
                assert(out[i].0 == name && name == files[k].0);
            } else if j == k {
                assert(out[j].0 == name && name == files[k].0);
            }
        }
    } else {
        assert forall|i: int, j: int|
            0 <= i < j < out.len() implies #[trigger] out[i].0 != #[trigger] out[j].0 by {
            if j == out.len() - 1 {
                assert(out[i] == files[i]);
                assert(files[i].0 != name);
            }
        }
    }
}

/// The files after a sequence of whole-file writes, in order.
pub open spec fn write_all(
    files: Seq<(Seq<char>, Seq<u8>)>,
    notes: Seq<(Seq<char>, Seq<u8>)>,
) -> Seq<(Seq<char>, Seq<u8>)>
    decreases notes.len(),
{
    if notes.len() == 0 {
        files
    } else {
        put_file(write_all(files, notes.drop_last()), notes.last().0, notes.last().1)
    }
}

/// The directories after those writes: every written file's ancestors are
/// created first.
pub open spec fn dirs_all(dirs: Seq<Seq<char>>, notes: Seq<(Seq<char>, Seq<u8>)>) -> Seq<
    Seq<char>,
>
    decreases notes.len(),
{
    if notes.len() == 0 {
        dirs
    } else {
        crate::snapshot::record_ancestors(dirs_all(dirs, notes.drop_last()), notes.last().0)
    }
}

/// Import a set of files into the store, as a document import does: create
/// each file's missing parent directories, then write the file whole,
/// overwriting one already there.
pub fn import_notes(store: &mut Store, notes: &Vec<FileEntry>)
    requires
        old(store).wf(),
    ensures
        final(store).wf(),
        final(store).files_view() == write_all(old(store).files_view(), entries_view(notes@)),
        final(store).dirs_view() == dirs_all(old(store).dirs_view(), entries_view(notes@)),
{
    let ghost nv = entries_view(notes@);
    let mut i: usize = 0;
    proof {
        assert(nv.take(0) =~= Seq::<(Seq<char>, Seq<u8>)>::empty());
    }
    while i < notes.len()
        invariant
            i <= notes@.len(),
            nv == entries_view(notes@),
            store.wf(),
            store.files_view() == write_all(old(store).files_view(), nv.take(i as int)),
            store.dirs_view() == dirs_all(old(store).dirs_view(), nv.take(i as int)),
        decreases notes@.len() - i,
    {
        store.ensure_parents(notes[i].path.as_str());
        let content = notes[i].content.clone();
        proof {
            assert(content@ =~= notes@[i as int].content@);
        }
        store.put(&notes[i].path, content);
        proof {
            assert(nv.take(i + 1).drop_last() =~= nv.take(i as int));
            assert(nv.take(i + 1).last() == nv[i as int]);
        }
        i = i + 1;
    }
    proof {
        assert(nv.take(notes@.len() as int) =~= nv);
    }
}

} // verus!
