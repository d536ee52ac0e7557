use prost::encoding::{bytes, encode_key, encode_varint, string, uint64, WireType};
use git_nfs::git::builder::{rebuild_commit, rebuild_git_objects, BuildError};
use git_nfs::git::engine::{BlobAction, BlobEvent, BlobRequest, GitEngine};
use git_nfs::git::idx::PackIndex;
use git_nfs::git::pack::{unpack_packfile, ObjectType};
use git_nfs::git::tree::{GitTree, TreeEntryMode};
use git_nfs::maps::TextMap;
use git_nfs::staging::StagingStore;
use git_nfs::vfs::inode::{VfsError, VfsManager, ROOT_INODE};
use git_nfs::wal::manager::{mark_recovered, Recovery};
use git_nfs::wal::proto::{
    CreateFileMutation, InodeType, MkdirMutation, RemoveMutation, RenameMutation,
    TruncateMutation, WalEntry, WalHeader, WalPayload, WriteMutation,
};
use git_nfs::wal::recovery::{
    build_pack_from_recovered_state, replay_wal_entries, RecoverError, ReplayError,
};
use git_nfs::wal::steps::{RecoveryAction, RecoveryStage, RecoverySteps};
use git_nfs::wal::{GcsRapidWalBackend, LocalWalBackend, WalManager};

const BASE_TREE: &str = "0000000000000000000000000000000000000000";
const BASE_COMMIT: &str = "1111111111111111111111111111111111111111";

fn engine() -> GitEngine {
    GitEngine::new("https://example.com/repo.git", Some("/cache"), None)
}

fn entry(seq: u64, payload: WalPayload) -> WalEntry {
    WalEntry { seq, timestamp_unix_nanos: seq, payload: Some(payload) }
}

fn write(path: &str, offset: u64, data: &[u8]) -> WalPayload {
    WalPayload::Write(WriteMutation { path: path.to_string(), offset, data: data.to_vec() })
}

fn create(path: &str) -> WalPayload {
    WalPayload::CreateFile(CreateFileMutation {
        path: path.to_string(),
        inode_type: InodeType::RegularFile.to_i32(),
        mode: 0o100644,
    })
}

#[test]
fn test_wal_entry_framing_and_crash_truncation() {
    let mut all_bytes = Vec::new();

    let entry1 = WalEntry {
        seq: 1,
        timestamp_unix_nanos: 1000,
        payload: Some(WalPayload::Header(WalHeader {
            repo_url: "https://example.com/repo.git".to_string(),
            base_commit_oid: "aaaaaaaaaaaaaaaaaaaaaaaaaaaaaaaaaaaaaaaa".to_string(),
            author: "Tester <test@example.com>".to_string(),
            commit_message: "Crash test".to_string(),
            started_at_unix_secs: 123456,
            wal_seq: 0,
        })),
    };
    all_bytes.extend_from_slice(&entry1.encode_framed());

    let entry2 = WalEntry {
        seq: 2,
        timestamp_unix_nanos: 2000,
        payload: Some(WalPayload::CreateFile(CreateFileMutation {
            path: "test.txt".to_string(),
            inode_type: InodeType::RegularFile.to_i32(),
            mode: 0o100644,
        })),
    };
    all_bytes.extend_from_slice(&entry2.encode_framed());

    let entry3 = WalEntry {
        seq: 3,
        timestamp_unix_nanos: 3000,
        payload: Some(WalPayload::Write(WriteMutation {
            path: "test.txt".to_string(),
            offset: 0,
            data: b"hello crash recovery".to_vec(),
        })),
    };
    all_bytes.extend_from_slice(&entry3.encode_framed());

    all_bytes.extend_from_slice(&(100u32).to_be_bytes());
    all_bytes.extend_from_slice(&[0xaa; 10]);

    let (decoded, consumed) = WalEntry::decode_all_framed(&all_bytes);
    assert_eq!(decoded.len(), 3);
    assert_eq!(decoded[0].seq, 1);
    assert_eq!(decoded[1].seq, 2);
    assert_eq!(decoded[2].seq, 3);
    assert!(consumed < all_bytes.len());
    match &decoded[2].payload {
        Some(WalPayload::Write(w)) => {
            assert_eq!(w.path, "test.txt");
            assert_eq!(w.data, b"hello crash recovery");
        }
        _ => panic!("not a write"),
    }
}

#[test]
fn test_entries_in_the_wire_format() {
    let e = WalEntry {
        seq: 300,
        timestamp_unix_nanos: u64::MAX,
        payload: Some(write("d/f", 5, b"xyz")),
    };
    let mut inner = Vec::new();
    string::encode(1, &"d/f".to_string(), &mut inner);
    uint64::encode(2, &5, &mut inner);
    bytes::encode(3, &b"xyz".to_vec(), &mut inner);
    let mut want = Vec::new();
    uint64::encode(1, &300, &mut want);
    uint64::encode(2, &u64::MAX, &mut want);
    // The payload's field is the last one, whatever its number is.
    let got = e.encode();
    assert_eq!(&got[..want.len()], &want[..]);
    let (tag, wire) =
        prost::encoding::decode_key(&mut &got[want.len()..]).unwrap();
    assert_eq!(wire, WireType::LengthDelimited);
    encode_key(tag, WireType::LengthDelimited, &mut want);
    encode_varint(inner.len() as u64, &mut want);
    want.extend_from_slice(&inner);
    assert_eq!(got, want);

    let framed = e.encode_framed();
    assert_eq!(&framed[..4], &(got.len() as u32).to_be_bytes());
    assert_eq!(&framed[4..], &got[..]);
    let back = WalEntry::decode(&got).unwrap();
    assert_eq!(back.seq, 300);
    assert_eq!(back.timestamp_unix_nanos, u64::MAX);

    // Unknown fields are skipped, and broken ones refused.
    let mut more = got.clone();
    string::encode(99, &"later".to_string(), &mut more);
    assert_eq!(WalEntry::decode(&more).unwrap().seq, 300);
    assert!(WalEntry::decode(&[0x08]).is_none());
    assert!(WalEntry::decode(&[0xff; 11]).is_none());
}

#[test]
fn test_all_payloads_come_back() {
    let entries = vec![
        entry(1, create("a/b.txt")),
        entry(2, WalPayload::Mkdir(MkdirMutation { path: "dir".to_string() })),
        entry(3, write("a/b.txt", 7, b"\0\xff")),
        entry(4, WalPayload::Truncate(TruncateMutation { path: "x".to_string(), new_size: 9 })),
        entry(5, WalPayload::Remove(RemoveMutation { path: "y".to_string() })),
        entry(
            6,
            WalPayload::Rename(RenameMutation {
                from_path: "p".to_string(),
                to_path: "q".to_string(),
            }),
        ),
        WalEntry { seq: 7, timestamp_unix_nanos: 0, payload: None },
    ];
    let mut log = Vec::new();
    for e in &entries {
        log.extend_from_slice(&e.encode_framed());
    }
    let (back, used) = WalEntry::decode_all_framed(&log);
    assert_eq!(used, log.len());
    assert_eq!(format!("{back:?}"), format!("{entries:?}"));
}

#[test]
fn test_local_wal_backend_lifecycle_and_zombie_lockout() {
    let backend = LocalWalBackend::new("/tmp/wal");
    let names = backend.names();
    assert_eq!(backend.dir(), "/tmp/wal");
    assert_eq!(names.list_log_sequences(&vec![]), Vec::<u64>::new());

    let e = entry(1, WalPayload::Mkdir(MkdirMutation { path: "dir1".to_string() }));
    let log0 = e.encode_framed();
    let mut files = vec![names.log_name(1), names.log_name(0), "notes.txt".to_string()];
    let seqs = names.list_log_sequences(&files);
    assert_eq!(seqs, vec![0, 1]);

    assert_eq!(WalManager::uncommitted(&seqs, &vec![false, false]), vec![0, 1]);
    let marks = names.mark_log_done(0, "commit0", Some(b"pack0"), Some(b"idx0"));
    let marked: Vec<(&str, &[u8])> =
        marks.iter().map(|f| (f.name.as_str(), f.data.as_slice())).collect();
    assert_eq!(
        marked,
        vec![
            ("0.done", b"commit0\n".as_slice()),
            ("0.pack", b"pack0".as_slice()),
            ("0.idx", b"idx0".as_slice())
        ]
    );
    files.push(marks[0].name.clone());
    let done: Vec<bool> = seqs.iter().map(|s| files.contains(&names.done_name(*s))).collect();
    assert_eq!(done, vec![true, false]);
    assert_eq!(WalManager::uncommitted(&seqs, &done), vec![1]);

    let (entries, _) = WalEntry::decode_all_framed(&log0);
    assert_eq!(entries.len(), 1);
    assert_eq!(entries[0].seq, 1);
}

#[test]
fn test_log_names_in_a_bucket() {
    let backend = GcsRapidWalBackend::new("bucket", "//linux/wal/");
    assert_eq!(backend.bucket(), "projects/_/buckets/bucket");
    let names = backend.names();
    assert_eq!(names.prefix(), "linux/wal/");
    assert_eq!(names.log_name(12), "linux/wal/12.log");
    assert_eq!(names.pack_name(12), "linux/wal/12.pack");
    assert_eq!(names.idx_name(12), "linux/wal/12.idx");
    assert_eq!(names.log_sequence("linux/wal/12.log"), Some(12));
    assert_eq!(names.log_sequence("12.log"), Some(12));
    assert_eq!(names.log_sequence("linux/wal/12.done"), None);
    assert_eq!(names.log_sequence("linux/wal/x.log"), None);
    assert_eq!(names.log_sequence("linux/wal/18446744073709551616.log"), None);
}

#[test]
fn test_session_log_numbers() {
    let mut manager = WalManager::new(4);
    assert_eq!(manager.active_seq(), 4);
    let head = manager.start_active_wal("url", "base", "author", "message", 100, 5);
    assert_eq!(head.seq, 1);
    match head.payload {
        Some(WalPayload::Header(h)) => {
            assert_eq!(h.wal_seq, 4);
            assert_eq!(h.started_at_unix_secs, 100);
            assert_eq!(h.commit_message, "message");
        }
        _ => panic!("no head"),
    }
    assert_eq!(manager.log_mutation(create("a"), 6).seq, 2);
    assert_eq!(manager.log_mutation(create("b"), 7).timestamp_unix_nanos, 7);
    assert_eq!(manager.advance_seq(), 5);
    assert_eq!(manager.log_mutation(create("c"), 8).seq, 1);
}

#[test]
fn test_wal_mutation_replay_and_packfile_generation() {
    let mut vfs = VfsManager::new(engine(), BASE_TREE);
    let mut staging = StagingStore::new();
    let entries = vec![
        entry(1, WalPayload::Mkdir(MkdirMutation { path: "src".to_string() })),
        entry(2, create("src/main.rs")),
        entry(3, write("src/main.rs", 0, b"fn main() { println!(\"wal recovery\"); }")),
        entry(4, create("scratch.txt")),
        entry(5, write("scratch.txt", 0, b"temporary")),
        entry(6, WalPayload::Remove(RemoveMutation { path: "scratch.txt".to_string() })),
        entry(7, create("old_name.txt")),
        entry(8, write("old_name.txt", 0, b"truncate and rename me please")),
        entry(
            9,
            WalPayload::Truncate(TruncateMutation {
                path: "old_name.txt".to_string(),
                new_size: 8,
            }),
        ),
        entry(
            10,
            WalPayload::Rename(RenameMutation {
                from_path: "old_name.txt".to_string(),
                to_path: "renamed.txt".to_string(),
            }),
        ),
    ];
    replay_wal_entries(&entries, &mut vfs, &mut staging, &TextMap::new()).unwrap();

    assert!(vfs.lookup_path("scratch.txt").is_err());
    assert!(vfs.lookup_path("old_name.txt").is_err());
    let renamed_id = vfs.lookup_path("renamed.txt").unwrap();
    let renamed_content = staging.get_staged_content(renamed_id).unwrap();
    assert_eq!(&renamed_content[..], b"truncate");

    let main_node_id = vfs.lookup_path("src/main.rs").unwrap();
    assert!(staging.is_staged(main_node_id));
    let content = staging.get_staged_content(main_node_id).unwrap();
    assert_eq!(&content[..], b"fn main() { println!(\"wal recovery\"); }");

    let pack_res = build_pack_from_recovered_state(
        &mut vfs,
        &staging,
        BASE_COMMIT,
        "Author <author@example.com>",
        "Recovered commit",
        77,
    )
    .unwrap()
    .expect("Expected recovered packfile");

    assert!(!pack_res.commit_oid.is_empty());
    assert!(!pack_res.pack_data.is_empty());
    assert!(!pack_res.idx_data.is_empty());

    // The commit and its trees hold what was recovered.
    let all = unpack_packfile(&pack_res.pack_data).unwrap();
    let commit = String::from_utf8(all.get(&pack_res.commit_oid).unwrap().data.clone()).unwrap();
    assert_eq!(
        commit,
        format!(
            "tree {}\nparent {}\nauthor Author <author@example.com> 77 +0000\ncommitter Author <author@example.com> 77 +0000\n\nRecovered commit\n",
            pack_res.root_tree_oid, BASE_COMMIT
        )
    );
    let root = GitTree::parse(&all.get(&pack_res.root_tree_oid).unwrap().data).unwrap();
    let names: Vec<&str> = root.entries.iter().map(|e| e.name.as_str()).collect();
    assert_eq!(names, vec!["renamed.txt", "src"]);
    let idx = PackIndex::parse("p", &pack_res.idx_data).unwrap();
    assert_eq!(idx.object_count(), pack_res.objects.len());
}

fn blob_of(engine: &mut GitEngine, oid: &str) -> Vec<u8> {
    let mut request = BlobRequest::new(oid);
    match engine.get_blob_arc(&mut request, BlobEvent::Begin) {
        BlobAction::Return(data) => (*data).clone(),
        _ => panic!("not in memory"),
    }
}

#[test]
fn test_multi_wal_crash_recovery_cumulative() {
    let header = |seq: u64, author: &str, message: &str, at: u64, wal: u64| WalEntry {
        seq: 1,
        timestamp_unix_nanos: seq,
        payload: Some(WalPayload::Header(WalHeader {
            repo_url: "https://example.com/repo.git".to_string(),
            base_commit_oid: BASE_COMMIT.to_string(),
            author: author.to_string(),
            commit_message: message.to_string(),
            started_at_unix_secs: at,
            wal_seq: wal,
        })),
    };
    let mut log0 = header(1, "Author 1 <a1@example.com>", "Commit 1", 100, 0).encode_framed();
    log0.extend(entry(2, write("file1.txt", 0, b"content from crashed session 0")).encode_framed());
    let mut log1 = header(3, "Author 2 <a2@example.com>", "Commit 2", 200, 1).encode_framed();
    log1.extend(entry(2, write("file2.txt", 0, b"content from crashed session 1")).encode_framed());
    let logs = vec![log0, log1];

    let (mut git_engine, recovered) = WalManager::recover_and_replay_uncommitted(
        &logs,
        engine(),
        BASE_TREE,
        BASE_COMMIT,
        "Fallback <f@example.com>",
        "Fallback msg",
        &TextMap::new(),
        5,
    );
    let result = recovered.unwrap();
    let recovered = result.as_ref().expect("Expected crash recovery to produce a packfile");
    assert!(!recovered.commit_oid.is_empty());
    assert!(!recovered.root_tree_oid.is_empty());
    let all = unpack_packfile(&recovered.pack_data).unwrap();
    let commit = String::from_utf8(all.get(&recovered.commit_oid).unwrap().data.clone()).unwrap();
    assert!(commit.contains("author Author 2 <a2@example.com> 5 +0000"));
    assert!(commit.ends_with("\n\nRecovered from crash: Commit 2\n"));

    git_engine.apply_recovered_objects(
        &recovered.commit_oid,
        &recovered.root_tree_oid,
        &recovered.objects,
    );
    assert_eq!(git_engine.base_commit_oid().unwrap(), recovered.commit_oid);

    let mut restored_vfs = VfsManager::new(git_engine, &recovered.root_tree_oid);
    let f1_id = restored_vfs.lookup_path("file1.txt").unwrap();
    let f2_id = restored_vfs.lookup_path("file2.txt").unwrap();
    let f1_node = restored_vfs.get_node(f1_id).unwrap();
    let f2_node = restored_vfs.get_node(f2_id).unwrap();
    let f1_blob = blob_of(restored_vfs.engine_mut(), &f1_node.oid);
    let f2_blob = blob_of(restored_vfs.engine_mut(), &f2_node.oid);
    assert_eq!(f1_blob, b"content from crashed session 0");
    assert_eq!(f2_blob, b"content from crashed session 1");

    // Both logs are marked as done, and then nothing is left.
    let names = LocalWalBackend::new("/wal");
    let mut files = vec!["0.log".to_string(), "1.log".to_string()];
    for seq in [0, 1] {
        for f in mark_recovered(names.names(), seq, &result) {
            files.push(f.name);
        }
    }
    assert!(files.contains(&"0.done".to_string()));
    assert!(files.contains(&"1.done".to_string()));
    let seqs = names.names().list_log_sequences(&files);
    let done: Vec<bool> =
        seqs.iter().map(|s| files.contains(&names.names().done_name(*s))).collect();
    assert!(WalManager::uncommitted(&seqs, &done).is_empty());
}

#[test]
fn test_nothing_to_recover() {
    let (_, r) = WalManager::recover_and_replay_uncommitted(
        &vec![vec![1, 2, 3]],
        engine(),
        BASE_TREE,
        BASE_COMMIT,
        "a",
        "m",
        &TextMap::new(),
        5,
    );
    let r = r.unwrap();
    assert!(r.is_none());
    let names = LocalWalBackend::new("/wal");
    let files = mark_recovered(names.names(), 3, &r);
    assert_eq!(files.len(), 1);
    assert_eq!(files[0].name, "3.done");
    assert_eq!(files[0].data, b"empty\n");
}

#[test]
fn test_recovery_step_by_step() {
    // A repository with one file, whose blob has to be fetched.
    let mut tree = b"100644 old.txt\0".to_vec();
    tree.extend_from_slice(&[7u8; 20]);
    let oid = "07".repeat(20);
    let mut base = engine();
    base.apply_recovered_objects(
        BASE_COMMIT,
        BASE_TREE,
        &[git_nfs::git::builder::GitObjectToPack {
            oid: BASE_TREE.to_string(),
            obj_type: ObjectType::Tree,
            data: tree,
        }],
    );
    let mut log = entry(1, write("old.txt", 3, b"XY")).encode_framed();
    log.extend(entry(2, create("new.txt")).encode_framed());
    let mut recovery = Recovery::new(base, BASE_TREE, BASE_COMMIT, "a <a@a>", "msg");
    let (count, used) = recovery.read_log(&log);
    assert_eq!((count, used), (2, log.len()));
    assert_eq!(recovery.advance().unwrap().unwrap(), oid);
    recovery.supply(Some(b"abcdefg")).unwrap();
    assert!(recovery.advance().unwrap().is_none());
    let result = recovery.finish(9).unwrap().unwrap();
    let all = unpack_packfile(&result.pack_data).unwrap();
    let root = GitTree::parse(&all.get(&result.root_tree_oid).unwrap().data).unwrap();
    let edited = root.find("old.txt").unwrap();
    assert_eq!(all.get(&edited.oid).unwrap().data, b"abcXYfg");
    assert!(root.find("new.txt").is_some());
}

#[test]
fn test_recovery_order() {
    // Log 3 is done; log 5 edits a file whose blob has to be fetched; log 8 adds another.
    let mut tree = b"100644 old.txt\0".to_vec();
    tree.extend_from_slice(&[7u8; 20]);
    let mut base = engine();
    base.apply_recovered_objects(
        BASE_COMMIT,
        BASE_TREE,
        &[git_nfs::git::builder::GitObjectToPack {
            oid: BASE_TREE.to_string(),
            obj_type: ObjectType::Tree,
            data: tree,
        }],
    );
    let fifth = entry(1, write("old.txt", 3, b"XY")).encode_framed();
    let eighth = entry(1, create("new.txt")).encode_framed();
    let recovery = Recovery::new(base, BASE_TREE, BASE_COMMIT, "a <a@a>", "msg");
    let mut steps = RecoverySteps::new(recovery);
    assert_eq!(steps.stage(), RecoveryStage::Listing);
    let mut done = vec![3u64];
    let mut trail = Vec::new();
    let mut action = steps.listed(vec![3, 5, 8]);
    loop {
        trail.push(match &action {
            RecoveryAction::Lockout(seqs) => format!("lock {seqs:?}"),
            RecoveryAction::CheckDone(seq) => format!("check {seq}"),
            RecoveryAction::ReadLog(seq) => format!("read {seq}"),
            RecoveryAction::FetchBlob(oid) => format!("fetch {}", &oid[..4]),
            RecoveryAction::Publish => "publish".to_string(),
            RecoveryAction::MarkDone(seq) => format!("mark {seq}"),
            RecoveryAction::Finish => break,
            RecoveryAction::Fail(_) => panic!("failed"),
        });
        action = match action {
            RecoveryAction::Lockout(_) => steps.locked_out(),
            RecoveryAction::CheckDone(seq) => steps.checked(done.contains(&seq)),
            RecoveryAction::ReadLog(5) => steps.log_read(&fifth, 9),
            RecoveryAction::ReadLog(_) => steps.log_read(&eighth, 9),
            RecoveryAction::FetchBlob(_) => steps.blob_fetched(Some(b"abcdefg"), 9),
            RecoveryAction::Publish => {
                assert!(steps.result().is_some());
                steps.published()
            }
            RecoveryAction::MarkDone(seq) => {
                done.push(seq);
                steps.marked()
            }
            _ => unreachable!(),
        };
    }
    assert_eq!(
        trail,
        vec![
            "lock [3, 5, 8]",
            "check 3",
            "check 5",
            "check 8",
            "read 5",
            "fetch 0707",
            "read 8",
            "publish",
            "mark 5",
            "mark 8",
        ]
    );
    let (engine, result) = steps.into_parts();
    let result = result.unwrap();
    let all = unpack_packfile(&result.pack_data).unwrap();
    let root = GitTree::parse(&all.get(&result.root_tree_oid).unwrap().data).unwrap();
    assert_eq!(all.get(&root.find("old.txt").unwrap().oid).unwrap().data, b"abcXYfg");
    assert!(root.find("new.txt").is_some());

    // A second recovery finds nothing more.
    let mut again =
        RecoverySteps::new(Recovery::new(engine, BASE_TREE, BASE_COMMIT, "a <a@a>", "msg"));
    let mut action = again.listed(vec![3, 5, 8]);
    let mut count = 0;
    loop {
        count += 1;
        action = match action {
            RecoveryAction::Lockout(_) => again.locked_out(),
            RecoveryAction::CheckDone(seq) => again.checked(done.contains(&seq)),
            RecoveryAction::Finish => break,
            _ => panic!("something was left"),
        };
    }
    assert_eq!(count, 5);
    assert!(again.into_parts().1.is_none());
}

#[test]
fn test_recovery_without_edits() {
    let fresh =
        || RecoverySteps::new(Recovery::new(engine(), BASE_TREE, BASE_COMMIT, "a <a@a>", "msg"));
    // No logs.
    assert!(matches!(fresh().listed(Vec::new()), RecoveryAction::Finish));
    // A log without edits is marked, and nothing is published.
    let mut steps = fresh();
    steps.listed(vec![1]);
    steps.locked_out();
    assert!(matches!(steps.checked(false), RecoveryAction::ReadLog(1)));
    assert!(matches!(steps.log_read(&[], 9), RecoveryAction::MarkDone(1)));
    assert!(steps.result().is_none());
    assert!(matches!(steps.marked(), RecoveryAction::Finish));
    // One that cannot be gone through is not.
    let mut steps = fresh();
    steps.listed(vec![1]);
    steps.locked_out();
    steps.checked(false);
    let bad = entry(1, create("///")).encode_framed();
    assert!(matches!(
        steps.log_read(&bad, 9),
        RecoveryAction::Fail(RecoverError::Replay(_))
    ));
    assert_eq!(steps.stage(), RecoveryStage::Over);
}

#[test]
fn test_nested_unknown_fields() {
    let groups = |depth: usize| {
        let mut out = Vec::new();
        for _ in 0..depth {
            encode_key(90, WireType::StartGroup, &mut out);
        }
        for _ in 0..depth {
            encode_key(90, WireType::EndGroup, &mut out);
        }
        out
    };
    let in_entry = |depth: usize| {
        let mut out = Vec::new();
        uint64::encode(1, &7, &mut out);
        out.extend(groups(depth));
        out
    };
    assert_eq!(WalEntry::decode(&in_entry(100)).unwrap().seq, 7);
    assert!(WalEntry::decode(&in_entry(101)).is_none());
    // Inside of a payload one level less is left.
    let in_payload = |depth: usize| {
        let mut inner = Vec::new();
        string::encode(1, &"d".to_string(), &mut inner);
        inner.extend(groups(depth));
        let mut out = Vec::new();
        encode_key(5, WireType::LengthDelimited, &mut out);
        encode_varint(inner.len() as u64, &mut out);
        out.extend(inner);
        out
    };
    match WalEntry::decode(&in_payload(99)).unwrap().payload {
        Some(WalPayload::Mkdir(m)) => assert_eq!(m.path, "d"),
        _ => panic!("not read"),
    }
    assert!(WalEntry::decode(&in_payload(100)).is_none());
}

#[test]
fn test_replay_errors() {
    let mut vfs = VfsManager::new(engine(), BASE_TREE);
    let mut staging = StagingStore::new();
    let blobs = TextMap::new();
    let r = replay_wal_entries(&[entry(1, create("///"))], &mut vfs, &mut staging, &blobs);
    assert!(matches!(r, Err(ReplayError::Vfs(VfsError::EmptyPath))));
    let r = replay_wal_entries(
        &[entry(1, write("big", u64::MAX, b"x"))],
        &mut vfs,
        &mut staging,
        &blobs,
    );
    assert!(matches!(r, Err(ReplayError::Staging(_))));
    let r = replay_wal_entries(
        &[entry(1, create("file")), entry(2, create("file/below"))],
        &mut vfs,
        &mut staging,
        &blobs,
    );
    assert!(matches!(r, Err(ReplayError::Vfs(VfsError::NotADirectory(_)))));
    // What cannot be renamed or cut off is passed over.
    let gone = RenameMutation { from_path: "no".to_string(), to_path: "nowhere".to_string() };
    let cut = TruncateMutation { path: "missing".to_string(), new_size: 1 };
    replay_wal_entries(
        &[entry(1, WalPayload::Rename(gone)), entry(2, WalPayload::Truncate(cut))],
        &mut vfs,
        &mut staging,
        &blobs,
    )
    .unwrap();
    assert!(vfs.lookup_path("nowhere").is_err());
}

#[test]
fn test_tree_pruning_only_packs_changed_objects() {
    let mut staging = StagingStore::new();
    let mut vfs = VfsManager::new(engine(), "0000000000000000000000000000000000000000");

    let dir_a = vfs.mkdir(ROOT_INODE, "dir_a").unwrap();
    let dir_b = vfs.mkdir(ROOT_INODE, "dir_b").unwrap();

    let b_tree_sha = "bbbbbbbbbbbbbbbbbbbbbbbbbbbbbbbbbbbbbbbb";
    vfs.set_oid(dir_b.id, b_tree_sha);

    let file_a = vfs.create_file(dir_a.id, "file.txt", TreeEntryMode::RegularFile).unwrap();
    staging.write_at(file_a.id, 0, b"hello world", None).unwrap();

    let (commit_oid, objects) = rebuild_git_objects(
        &mut vfs,
        &staging,
        "1111111111111111111111111111111111111111",
        "Test <test@example.com>",
        "Test commit",
        1,
    )
    .unwrap();

    assert!(!commit_oid.is_empty());
    assert_eq!(
        objects.len(),
        4,
        "Expected 4 objects (1 blob + 2 changed trees + 1 commit), got {}",
        objects.len()
    );
    let types: Vec<_> = objects.iter().map(|o| o.obj_type).collect();
    assert_eq!(types.iter().filter(|&&t| t == ObjectType::Blob).count(), 1);
    assert_eq!(types.iter().filter(|&&t| t == ObjectType::Tree).count(), 2);
    assert_eq!(types.iter().filter(|&&t| t == ObjectType::Commit).count(), 1);
    assert!(!objects.iter().any(|o| o.oid == b_tree_sha));
}

#[test]
fn test_removals_and_renames_are_committed() {
    // A repository with d/a.txt and d/b.txt.
    let mut sub = b"100644 a.txt\0".to_vec();
    sub.extend_from_slice(&[1u8; 20]);
    sub.extend_from_slice(b"100644 b.txt\0");
    sub.extend_from_slice(&[2u8; 20]);
    let sub_oid = git_nfs::git::pack::compute_git_sha1(ObjectType::Tree, &sub);
    let mut root = b"40000 d\0".to_vec();
    root.extend_from_slice(&hex::decode(&sub_oid).unwrap());
    let root_oid = git_nfs::git::pack::compute_git_sha1(ObjectType::Tree, &root);
    let mut base = engine();
    let object = |oid: &str, data: Vec<u8>| git_nfs::git::builder::GitObjectToPack {
        oid: oid.to_string(),
        obj_type: ObjectType::Tree,
        data,
    };
    base.apply_recovered_objects(
        BASE_COMMIT,
        &root_oid,
        &[object(&sub_oid, sub), object(&root_oid, root)],
    );
    let mut vfs = VfsManager::new(base, &root_oid);
    let mut staging = StagingStore::new();
    let entries = vec![
        entry(1, WalPayload::Remove(RemoveMutation { path: "d/a.txt".to_string() })),
        entry(
            2,
            WalPayload::Rename(RenameMutation {
                from_path: "d/b.txt".to_string(),
                to_path: "d/c.txt".to_string(),
            }),
        ),
    ];
    replay_wal_entries(&entries, &mut vfs, &mut staging, &TextMap::new()).unwrap();
    let built = rebuild_commit(&mut vfs, &staging, BASE_COMMIT, "a", "m", 1).unwrap();
    assert_ne!(built.root_tree_oid, root_oid);
    let tree = |oid: &str| {
        let o = built.objects.iter().find(|o| o.oid == oid).unwrap();
        GitTree::parse(&o.data).unwrap()
    };
    let dir = tree(&built.root_tree_oid).find("d").unwrap().oid.clone();
    let names: Vec<String> = tree(&dir).entries.iter().map(|e| e.name.clone()).collect();
    assert_eq!(names, vec!["c.txt".to_string()]);
}

#[test]
fn test_moved_files_and_directories_are_committed() {
    // A repository with d/a.txt and e/b.txt: e is moved into d, and d/a.txt to the root.
    let tree_of = |line: &[u8], oid: &[u8]| {
        let mut data = line.to_vec();
        data.extend_from_slice(oid);
        let name = git_nfs::git::pack::compute_git_sha1(ObjectType::Tree, &data);
        (name, data)
    };
    let (d_oid, d) = tree_of(b"100644 a.txt\0", &[1u8; 20]);
    let (e_oid, e) = tree_of(b"100644 b.txt\0", &[2u8; 20]);
    let mut both = b"40000 d\0".to_vec();
    both.extend_from_slice(&hex::decode(&d_oid).unwrap());
    both.extend_from_slice(b"40000 e\0");
    let (root_oid, root) = tree_of(&both, &hex::decode(&e_oid).unwrap());
    let object = |oid: &str, data: Vec<u8>| git_nfs::git::builder::GitObjectToPack {
        oid: oid.to_string(),
        obj_type: ObjectType::Tree,
        data,
    };
    let mut base = engine();
    base.apply_recovered_objects(
        BASE_COMMIT,
        &root_oid,
        &[object(&d_oid, d), object(&e_oid, e), object(&root_oid, root)],
    );
    let mut vfs = VfsManager::new(base, &root_oid);
    let mut staging = StagingStore::new();
    let rename = |seq: u64, from: &str, to: &str| {
        entry(
            seq,
            WalPayload::Rename(RenameMutation {
                from_path: from.to_string(),
                to_path: to.to_string(),
            }),
        )
    };
    let entries = vec![rename(1, "e", "d/f"), rename(2, "d/a.txt", "moved.txt")];
    replay_wal_entries(&entries, &mut vfs, &mut staging, &TextMap::new()).unwrap();
    let built = rebuild_commit(&mut vfs, &staging, BASE_COMMIT, "a", "m", 1).unwrap();
    let tree = |oid: &str| {
        let o = built.objects.iter().find(|o| o.oid == oid).unwrap();
        GitTree::parse(&o.data).unwrap()
    };
    let top = tree(&built.root_tree_oid);
    let names: Vec<&str> = top.entries.iter().map(|e| e.name.as_str()).collect();
    assert_eq!(names, vec!["d", "moved.txt"]);
    assert_eq!(top.find("moved.txt").unwrap().oid, hex::encode([1u8; 20]));
    let inner = tree(&top.find("d").unwrap().oid);
    let names: Vec<&str> = inner.entries.iter().map(|e| e.name.as_str()).collect();
    assert_eq!(names, vec!["f"]);
    // The directory that was moved is the tree that it was, and is not built anew.
    assert_eq!(inner.find("f").unwrap().oid, e_oid);
    assert!(!built.objects.iter().any(|o| o.oid == e_oid));
}

#[test]
fn test_unchanged_trees_are_pruned() {
    let mut staging = StagingStore::new();
    let mut root = b"100644 f\0".to_vec();
    let oid = git_nfs::git::pack::compute_git_sha1(ObjectType::Blob, b"same");
    root.extend_from_slice(&hex::decode(&oid).unwrap());
    let root_oid = git_nfs::git::pack::compute_git_sha1(ObjectType::Tree, &root);
    let mut base = engine();
    base.apply_recovered_objects(
        BASE_COMMIT,
        &root_oid,
        &[git_nfs::git::builder::GitObjectToPack {
            oid: root_oid.clone(),
            obj_type: ObjectType::Tree,
            data: root,
        }],
    );
    let mut vfs = VfsManager::new(base, &root_oid);
    let id = vfs.lookup_path("f").unwrap();
    staging.write_at(id, 0, b"same", None).unwrap();
    let built = rebuild_commit(&mut vfs, &staging, BASE_COMMIT, "a", "m", 1).unwrap();
    assert_eq!(built.root_tree_oid, root_oid);
    assert!(built.objects.iter().all(|o| o.obj_type != ObjectType::Tree));
}

#[test]
fn test_metadata_is_not_committed() {
    let mut staging = StagingStore::new();
    let mut vfs = VfsManager::new(engine(), BASE_TREE);
    for name in [".DS_Store", "._x", "b", "a"] {
        let node = vfs.create_file(ROOT_INODE, name, TreeEntryMode::RegularFile).unwrap();
        staging.write_at(node.id, 0, name.as_bytes(), None).unwrap();
    }
    let built = rebuild_commit(&mut vfs, &staging, BASE_COMMIT, "a", "m", 1).unwrap();
    let root = built.objects.iter().find(|o| o.oid == built.root_tree_oid).unwrap();
    let tree = GitTree::parse(&root.data).unwrap();
    let names: Vec<&str> = tree.entries.iter().map(|e| e.name.as_str()).collect();
    assert_eq!(names, vec!["a", "b"]);
    assert_eq!(built.objects.len(), 4);
}

#[test]
fn test_builder_errors() {
    let mut staging = StagingStore::new();
    let mut vfs = VfsManager::new(engine(), BASE_TREE);
    let node = vfs.mkdir(ROOT_INODE, "d").unwrap();
    vfs.set_oid(node.id, "not hexadecimal");
    staging.record_changed_path("d");
    let r = rebuild_git_objects(&mut vfs, &staging, BASE_COMMIT, "a", "m", 1);
    assert!(matches!(r, Err(BuildError::BadOid)));
    let r = build_pack_from_recovered_state(&mut vfs, &staging, BASE_COMMIT, "a", "m", 1);
    assert!(matches!(r, Err(RecoverError::Build(BuildError::BadOid))));
}
