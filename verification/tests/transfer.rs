use command_center::agent::{receive_wire, sender_wire, AgentError, ChunkMsg};
use command_center::chunks::{split_chunks, take_range};
use command_center::codec::{decrypt_name, CodecError, CHUNK_SIZE, ENCRYPTED_CHUNK_SIZE, ENCRYPTION_OVERHEAD};
use command_center::restore::{decrypt_backup, restore_from_quarantine};
use command_center::store::{FileEntry, Store};

fn sample_tree() -> Vec<FileEntry> {
    let big: Vec<u8> = (0..5000u32).map(|i| (i % 241) as u8).collect();
    vec![
        FileEntry::new("files/notes/a.md".to_string(), big),
        FileEntry::new("files/b.txt".to_string(), b"hello".to_vec()),
        FileEntry::new("files/empty.bin".to_string(), Vec::new()),
    ]
}

#[test]
fn split_chunks_of_empty_is_one_empty_piece() {
    let pieces = split_chunks(&[], CHUNK_SIZE);
    assert_eq!(pieces.len(), 1);
    assert!(pieces[0].is_empty());
}

#[test]
fn split_chunks_cuts_at_size_and_reassembles() {
    let data: Vec<u8> = (0..10_000u32).map(|i| (i % 199) as u8).collect();
    let pieces = split_chunks(&data, CHUNK_SIZE);
    assert_eq!(pieces.len(), 3);
    assert_eq!(pieces[0].len(), CHUNK_SIZE);
    assert_eq!(pieces[1].len(), CHUNK_SIZE);
    assert_eq!(pieces[2].len(), 10_000 - 2 * CHUNK_SIZE);
    let whole: Vec<u8> = pieces.concat();
    assert_eq!(whole, data);
}

#[test]
fn take_range_copies_the_slice() {
    let v = vec![1u8, 2, 3, 4, 5];
    assert_eq!(take_range(&v, 1, 4), vec![2, 3, 4]);
}

#[test]
fn backup_wire_has_expected_shape() {
    let files = sample_tree();
    let dir = "files".to_string();
    let secret = "pw1".to_string();
    let wire = sender_wire(&files, &dir, Some(&secret)).unwrap();
    // 2 chunks for the 5000-byte file, 1 for "hello", 1 for the empty file,
    // and 1 terminal chunk.
    assert_eq!(wire.len(), 5);
    assert_eq!(wire[0].payload.len(), ENCRYPTED_CHUNK_SIZE);
    assert_eq!(wire[1].payload.len(), 5000 - CHUNK_SIZE + ENCRYPTION_OVERHEAD);
    assert_eq!(wire[2].payload.len(), 5 + ENCRYPTION_OVERHEAD);
    assert_eq!(wire[3].payload.len(), ENCRYPTION_OVERHEAD);
    assert_eq!(wire[0].file_name, wire[1].file_name);
    assert_ne!(wire[1].file_name, wire[2].file_name);
    for m in wire.iter().take(4) {
        assert!(!m.done);
        assert!(!m.file_name.contains('/'));
    }
    let last = wire.last().unwrap();
    assert!(last.done);
    assert!(last.file_name.is_empty());
    assert!(last.payload.is_empty());
}

#[test]
fn backup_round_trip_with_secret() {
    let files = sample_tree();
    let dir = "files".to_string();
    let secret = "pw1".to_string();
    let wire = sender_wire(&files, &dir, Some(&secret)).unwrap();

    // Server side: receive into a clean store.
    let mut server = Store::new();
    let done = receive_wire(&mut server, &wire);
    assert!(done);
    assert_eq!(server.files.len(), 3);

    // The stored names decode and decrypt to the original relative paths.
    let names: Vec<String> =
        server.files.iter().map(|e| decrypt_name(&e.path, "pw1").unwrap()).collect();
    assert_eq!(names, vec!["notes/a.md", "b.txt", "empty.bin"]);

    // Decrypting the whole stored tree reproduces the original bytes.
    let tree = decrypt_backup(&server.files, "pw1").unwrap();
    assert_eq!(tree.len(), 3);
    assert_eq!(tree[0].path, "notes/a.md");
    assert_eq!(tree[0].content, files[0].content);
    assert_eq!(tree[1].path, "b.txt");
    assert_eq!(tree[1].content, b"hello".to_vec());
    assert_eq!(tree[2].path, "empty.bin");
    assert!(tree[2].content.is_empty());
}

#[test]
fn retrieve_relays_stored_bytes_and_restores() {
    let files = sample_tree();
    let dir = "files".to_string();
    let secret = "pw1".to_string();
    let wire = sender_wire(&files, &dir, Some(&secret)).unwrap();
    let mut server = Store::new();
    assert!(receive_wire(&mut server, &wire));

    // Server sends the stored (already encrypted) files back, names verbatim,
    // no second encryption.
    let store_dir = "storage/client.os".to_string();
    let stored: Vec<FileEntry> = server
        .files
        .iter()
        .map(|e| FileEntry::new(format!("{}/{}", store_dir, e.path), e.content.clone()))
        .collect();
    let relay = sender_wire(&stored, &store_dir, None).unwrap();

    // Client side: quarantine the retrieved backup.
    let mut quarantine = Store::new();
    assert!(receive_wire(&mut quarantine, &relay));
    assert_eq!(quarantine.files.len(), server.files.len());
    for (q, s) in quarantine.files.iter().zip(server.files.iter()) {
        assert_eq!(q.path, s.path);
        assert_eq!(q.content, s.content);
    }

    // Decrypting with the right secret replaces the live tree.
    let mut live = Store::new();
    live.put(&"stale.txt".to_string(), b"old live data".to_vec());
    restore_from_quarantine(&mut live, &quarantine.files, "pw1").unwrap();
    assert_eq!(live.files.len(), 3);
    assert_eq!(live.get(&"notes/a.md".to_string()).unwrap(), &files[0].content);
    assert_eq!(live.get(&"b.txt".to_string()).unwrap().as_slice(), b"hello");
    assert!(live.get(&"empty.bin".to_string()).unwrap().is_empty());
    assert!(live.get(&"stale.txt".to_string()).is_none());
    assert!(live.has_dir(&"notes".to_string()));
}

#[test]
fn wrong_secret_leaves_live_tree_untouched() {
    let files = sample_tree();
    let dir = "files".to_string();
    let secret = "pw1".to_string();
    let wire = sender_wire(&files, &dir, Some(&secret)).unwrap();
    let mut quarantine = Store::new();
    assert!(receive_wire(&mut quarantine, &wire));

    let mut live = Store::new();
    live.ensure_parents("notes/x.md");
    live.put(&"notes/x.md".to_string(), b"precious".to_vec());
    let before_files: Vec<(String, Vec<u8>)> =
        live.files.iter().map(|e| (e.path.clone(), e.content.clone())).collect();
    let before_dirs = live.dirs.clone();

    assert!(restore_from_quarantine(&mut live, &quarantine.files, "pw2").is_err());

    let after_files: Vec<(String, Vec<u8>)> =
        live.files.iter().map(|e| (e.path.clone(), e.content.clone())).collect();
    assert_eq!(after_files, before_files);
    assert_eq!(live.dirs, before_dirs);
}

#[test]
fn empty_tree_sends_only_the_terminal_chunk() {
    let files: Vec<FileEntry> = Vec::new();
    let dir = "files".to_string();
    let secret = "pw1".to_string();
    let wire = sender_wire(&files, &dir, Some(&secret)).unwrap();
    assert_eq!(wire.len(), 1);
    assert!(wire[0].done);
    let mut server = Store::new();
    assert!(receive_wire(&mut server, &wire));
    assert!(server.files.is_empty());
    assert_eq!(decrypt_backup(&server.files, "pw1").unwrap().len(), 0);
}

#[test]
fn sender_rejects_path_outside_directory() {
    let files = vec![FileEntry::new("elsewhere/a.md".to_string(), b"x".to_vec())];
    let dir = "files".to_string();
    let secret = "pw1".to_string();
    let r = sender_wire(&files, &dir, Some(&secret));
    assert!(matches!(r, Err(AgentError::PrefixMismatch)));
}

#[test]
fn receiver_ignores_nothing_before_terminal() {
    let mut store = Store::new();
    let wire = vec![
        ChunkMsg { file_name: "t".to_string(), done: false, payload: b"ab".to_vec() },
        ChunkMsg { file_name: "t".to_string(), done: false, payload: b"cd".to_vec() },
    ];
    let done = receive_wire(&mut store, &wire);
    assert!(!done);
    assert_eq!(store.get(&"t".to_string()).unwrap().as_slice(), b"abcd");
}

#[test]
fn sender_rejects_an_over_long_relative_path() {
    let long_rel = "a".repeat(0x0100_0001);
    let files = vec![FileEntry::new(format!("files/{}", long_rel), b"x".to_vec())];
    let dir = "files".to_string();
    let secret = "pw1".to_string();
    let r = sender_wire(&files, &dir, Some(&secret));
    assert!(matches!(r, Err(AgentError::Codec(CodecError::NameTooLong))));
}
