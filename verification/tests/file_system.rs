use sha1::Digest;
use git_nfs::cache::block::{BlockAction, BlockCache, BlockEvent, RangePlan};
use git_nfs::cache::disk::DiskCache;
use git_nfs::git::builder::GitObjectToPack;
use git_nfs::git::engine::{
    find_root_tree, parse_target, BlobAction, BlobEvent, BlobRequest, EngineError, GitEngine,
    RepoTarget, TreeLoader,
};
use git_nfs::git::pack::{compute_git_sha1, GitRawObject, ObjectType};
use git_nfs::git::pack_writer::PackWriter;
use git_nfs::git::startup::{Startup, StartupAction, StartupEvent, StartupStage};
use git_nfs::git::tree::TreeEntryMode;
use git_nfs::maps::TextMap;
use git_nfs::mount::NfsMounter;
use git_nfs::nfs::bind_address;
use git_nfs::nfs::fs::{
    AttrStep, FileType, GitNfsFileSystem, NfsStatus, ReadStep, SetAttr,
};
use git_nfs::session::{pack_file_names, resolve_author, wal_prefix};
use git_nfs::staging::{StagingError, StagingStore};
use git_nfs::vfs::inode::{VfsError, VfsManager, ROOT_INODE};
use git_nfs::wal::proto::WalPayload;

const ROOT: &str = "0000000000000000000000000000000000000000";

fn engine() -> GitEngine {
    GitEngine::new("https://example.com/repo.git", Some("/cache"), None)
}

/// A repository with `Makefile` and `kernel/sched.c`.
fn repository() -> (GitEngine, String) {
    let mut kernel = b"100644 sched.c\0".to_vec();
    kernel.extend_from_slice(&[2u8; 20]);
    let kernel_oid = compute_git_sha1(ObjectType::Tree, &kernel);
    let mut root = b"100644 Makefile\0".to_vec();
    root.extend_from_slice(&[1u8; 20]);
    root.extend_from_slice(b"40000 kernel\0");
    root.extend_from_slice(&hex::decode(&kernel_oid).unwrap());
    root.extend_from_slice(b"120000 link\0");
    root.extend_from_slice(&[3u8; 20]);
    let root_oid = compute_git_sha1(ObjectType::Tree, &root);
    let tree = |oid: &str, data: Vec<u8>| GitObjectToPack {
        oid: oid.to_string(),
        obj_type: ObjectType::Tree,
        data,
    };
    let mut e = engine();
    e.apply_recovered_objects(
        "c0",
        &root_oid,
        &[tree(&kernel_oid, kernel), tree(&root_oid, root)],
    );
    (e, root_oid)
}

fn file_system() -> GitNfsFileSystem {
    let (e, root) = repository();
    GitNfsFileSystem::new(VfsManager::new(e, &root), StagingStore::new(), 501, 20, 1000)
}

fn empty_file_system() -> GitNfsFileSystem {
    GitNfsFileSystem::new(VfsManager::new(engine(), ROOT), StagingStore::new(), 501, 20, 1000)
}

#[test]
fn test_setattr_directory_permits_non_size_attrs() {
    let mut nfs = empty_file_system();
    let (dir_id, attr, _) = nfs.mkdir(ROOT_INODE, b"test_dir", 1).expect("mkdir must succeed");
    assert!(matches!(attr.ftype, FileType::Directory));

    let res = nfs.setattr(dir_id, None);
    match res {
        Ok(SetAttr::Done(new_attr)) => assert!(matches!(new_attr.ftype, FileType::Directory)),
        _ => panic!("setattr with non-size attributes on directory should succeed, got {res:?}"),
    }

    let err = nfs
        .setattr(dir_id, Some(100))
        .expect_err("resizing directory must fail with NFS3ERR_ISDIR");
    assert!(matches!(err, NfsStatus::IsDir));
}

#[test]
fn test_setattr_file_allows_truncation() {
    let mut nfs = empty_file_system();
    let (file_id, _, _) = nfs.create(ROOT_INODE, b"file.txt", 1).expect("create file must succeed");
    assert!(nfs.write(file_id).unwrap().is_none());
    nfs.write_data(file_id, 0, b"hello world", None, 2).expect("write must succeed");

    match nfs.getattr(file_id) {
        AttrStep::Done(Ok(attr)) => assert_eq!(attr.size, 11),
        _ => panic!("getattr must succeed"),
    }

    assert!(matches!(nfs.setattr(file_id, Some(5)), Ok(SetAttr::Resize(None))));
    let (res, _) = nfs.setattr_size(file_id, 5, None, 3).expect("setattr on file must succeed");
    assert_eq!(res.size, 5);

    match nfs.read(file_id, 0, 100) {
        ReadStep::Done(Ok((read_data, _))) => assert_eq!(read_data, b"hello"),
        _ => panic!("read must succeed"),
    }
}

#[test]
fn test_reading_a_blob() {
    let mut nfs = file_system();
    let id = nfs.lookup(ROOT_INODE, b"Makefile").unwrap();
    let oid = match nfs.read(id, 0, 4) {
        ReadStep::Fetch { oid, prefetch } => {
            assert!(prefetch.is_some());
            oid
        }
        _ => panic!("nothing to fetch"),
    };
    assert_eq!(oid, "01".repeat(20));
    nfs.engine_mut().store_blob(&oid, b"all: test".to_vec());
    match nfs.read(id, 5, 2) {
        ReadStep::Fetch { prefetch, .. } => assert!(prefetch.is_none()),
        _ => panic!("nothing to fetch"),
    }
    assert_eq!(nfs.read_blob(id, 5, 2, Some(b"all: test")).unwrap(), (b"te".to_vec(), false));
    assert_eq!(nfs.read_blob(id, 5, 9, Some(b"all: test")).unwrap(), (b"test".to_vec(), true));
    assert_eq!(nfs.read_blob(id, 99, 9, Some(b"all: test")).unwrap(), (vec![], true));
    assert!(matches!(nfs.read_blob(id, 0, 1, None), Err(NfsStatus::Io)));
    match nfs.getattr(id) {
        AttrStep::Done(Ok(attr)) => {
            assert_eq!(attr.size, 9);
            assert_eq!(attr.used, 9);
            assert_eq!(attr.mode, 0o644);
            assert_eq!(attr.nlink, 1);
            assert_eq!((attr.uid, attr.gid, attr.seconds), (501, 20, 1000));
            assert_eq!(attr.fileid, id);
        }
        _ => panic!("no attributes"),
    }
}

#[test]
fn test_attributes_with_a_fetch() {
    let mut nfs = file_system();
    let dir = nfs.lookup(ROOT_INODE, b"kernel").unwrap();
    let id = nfs.lookup(dir, b"sched.c").unwrap();
    assert!(matches!(nfs.getattr(id), AttrStep::Fetch(_)));
    assert_eq!(nfs.getattr_fetched(id, None).unwrap().size, 1_048_576);
    assert_eq!(nfs.getattr_fetched(id, Some(7)).unwrap().size, 7);
    assert!(matches!(nfs.getattr(99), AttrStep::Done(Err(NfsStatus::NoEnt))));
    assert!(matches!(nfs.read(dir, 0, 1), ReadStep::Done(Err(NfsStatus::IsDir))));
    assert!(matches!(nfs.write(dir), Err(NfsStatus::IsDir)));
    assert!(matches!(nfs.write(99), Err(NfsStatus::NoEnt)));
}

#[test]
fn test_writing_starts_from_the_blob() {
    let mut nfs = file_system();
    let id = nfs.lookup(ROOT_INODE, b"Makefile").unwrap();
    assert_eq!(nfs.write(id).unwrap().unwrap(), "01".repeat(20));
    let (attr, payload) = nfs.write_data(id, 4, b"XY", Some(b"0123456789"), 44).unwrap();
    assert_eq!(attr.size, 10);
    match payload {
        Some(WalPayload::Write(w)) => {
            assert_eq!(w.path, "Makefile");
            assert_eq!(w.offset, 4);
            assert_eq!(w.data, b"XY");
        }
        _ => panic!("nothing logged"),
    }
    match nfs.read(id, 0, 100) {
        ReadStep::Done(Ok((data, eof))) => {
            assert_eq!(data, b"0123XY6789");
            assert!(eof);
        }
        _ => panic!("not read"),
    }
    assert!(nfs.has_uncommitted_changes());
    assert_eq!(nfs.last_mutation_time(), 44);
    assert!(!nfs.is_commit_due(73));
    assert!(nfs.is_commit_due(74));
    assert_eq!(nfs.staging().list_changed_paths(), vec!["Makefile".to_string()]);
    nfs.mark_committed();
    assert!(!nfs.has_uncommitted_changes());
    assert!(!nfs.is_commit_due(1000));
    assert!(nfs.staging().list_changed_paths().is_empty());
    assert!(nfs.staging().is_staged(id));
    assert!(matches!(nfs.write_data(id, u64::MAX, b"x", None, 1), Err(NfsStatus::Io)));
    assert!(matches!(nfs.setattr_size(id, u64::MAX, None, 1), Err(NfsStatus::Io)));
}

#[test]
fn test_edits_are_seen_at_once() {
    let mut nfs = file_system();
    let dir = nfs.lookup(ROOT_INODE, b"kernel").unwrap();
    let (id, attr, payload) = nfs.create(dir, b"new.c", 5).unwrap();
    assert_eq!(attr.size, 0);
    match payload {
        WalPayload::CreateFile(c) => {
            assert_eq!(c.path, "kernel/new.c");
            assert_eq!(c.mode, 0o100644);
        }
        _ => panic!("not logged"),
    }
    assert_eq!(nfs.lookup(dir, b"new.c").unwrap(), id);
    match nfs.rename(dir, b"new.c", ROOT_INODE, b"moved.c", 6).unwrap() {
        WalPayload::Rename(r) => {
            assert_eq!(r.from_path, "kernel/new.c");
            assert_eq!(r.to_path, "moved.c");
        }
        _ => panic!("not logged"),
    }
    assert!(matches!(nfs.lookup(dir, b"new.c"), Err(NfsStatus::NoEnt)));
    assert_eq!(nfs.lookup(ROOT_INODE, b"moved.c").unwrap(), id);
    match nfs.remove(ROOT_INODE, b"moved.c", 7).unwrap() {
        WalPayload::Remove(r) => assert_eq!(r.path, "moved.c"),
        _ => panic!("not logged"),
    }
    assert!(matches!(nfs.lookup(ROOT_INODE, b"moved.c"), Err(NfsStatus::NoEnt)));
    assert!(matches!(nfs.remove(ROOT_INODE, b"moved.c", 8), Err(NfsStatus::NoEnt)));
    assert!(matches!(nfs.rename(dir, b"x", dir, b"y", 8), Err(NfsStatus::Io)));
    assert!(matches!(nfs.create(id, b"x", 8), Err(NfsStatus::Io)));
    assert!(matches!(nfs.mkdir(id, b"x", 8), Err(NfsStatus::Io)));
    let (made, _) = nfs.create_exclusive(dir, b"only.c", 9).unwrap();
    assert_eq!(nfs.lookup(dir, b"only.c").unwrap(), made);
    assert!(matches!(nfs.symlink(), Err(NfsStatus::ReadOnly)));
}

#[test]
fn test_listing_a_directory() {
    let mut nfs = file_system();
    let page = nfs.readdir(ROOT_INODE, 0, 100).unwrap();
    let names: Vec<String> =
        page.entries.iter().map(|e| String::from_utf8(e.name.clone()).unwrap()).collect();
    assert_eq!(names, vec![".", "..", "Makefile", "kernel", "link"]);
    assert!(page.end);
    assert!(page.prefetch.is_some());

    let first = nfs.readdir(ROOT_INODE, 0, 3).unwrap();
    assert_eq!(first.entries.len(), 3);
    assert!(!first.end);
    let rest = nfs.readdir(ROOT_INODE, first.entries[2].fileid, 3).unwrap();
    assert_eq!(rest.entries.len(), 2);
    assert!(rest.end);
    assert!(rest.prefetch.is_none());
    assert_eq!(rest.entries[0].name, b"kernel");
    assert!(matches!(rest.entries[0].attr.ftype, FileType::Directory));
    assert!(matches!(rest.entries[1].attr.ftype, FileType::Symlink));

    // A number that is not there starts from the beginning.
    assert_eq!(nfs.readdir(ROOT_INODE, 999, usize::MAX).unwrap().entries.len(), 5);
    let file = nfs.lookup(ROOT_INODE, b"Makefile").unwrap();
    assert!(matches!(nfs.readdir(file, 0, 1), Err(NfsStatus::NotDir)));
    assert!(matches!(nfs.readdir(99, 0, 1), Err(NfsStatus::NoEnt)));
    let link = nfs.lookup(ROOT_INODE, b"link").unwrap();
    assert_eq!(nfs.readlink(link).unwrap(), "03".repeat(20));
    assert!(matches!(nfs.readlink(file), Err(NfsStatus::Inval)));
    assert!(matches!(nfs.readlink(99), Err(NfsStatus::NoEnt)));
}

#[test]
fn test_metadata_is_not_found() {
    let mut nfs = file_system();
    let (id, _, _) = nfs.create(ROOT_INODE, b"._Makefile", 5).unwrap();
    nfs.create(ROOT_INODE, b".DS_Store", 5).unwrap();
    assert!(matches!(nfs.lookup(ROOT_INODE, b"._Makefile"), Err(NfsStatus::NoEnt)));
    assert!(matches!(nfs.lookup(ROOT_INODE, b".DS_Store"), Err(NfsStatus::NoEnt)));
    // Its number still leads to it.
    assert!(nfs.vfs().get_node(id).is_some());
}

#[test]
fn test_renaming_to_the_same_name() {
    let mut nfs = file_system();
    let dir = nfs.lookup(ROOT_INODE, b"kernel").unwrap();
    let file = nfs.lookup(dir, b"sched.c").unwrap();
    nfs.rename(dir, b"sched.c", dir, b"sched.c", 6).unwrap();
    assert_eq!(nfs.lookup(dir, b"sched.c").unwrap(), file);
    let page = nfs.readdir(dir, 0, 10).unwrap();
    let ids: Vec<u64> = page.entries.iter().map(|e| e.fileid).collect();
    assert_eq!(ids, vec![dir, ROOT_INODE, file]);
    let (e, root) = repository();
    let mut vfs = VfsManager::new(e, &root);
    assert!(vfs.rename(ROOT_INODE, "Makefile", ROOT_INODE, "Makefile").is_ok());
    assert!(vfs.lookup(ROOT_INODE, "Makefile").is_ok());
    assert!(vfs.rename(ROOT_INODE, "none", ROOT_INODE, "none").is_err());
}

#[test]
fn test_what_was_renamed_is_listed_once() {
    let (e, root) = repository();
    let mut vfs = VfsManager::new(e, &root);
    let count = |vfs: &mut VfsManager, dir: u64, id: u64| {
        vfs.list_dir(dir).unwrap().iter().filter(|n| n.id == id).count()
    };
    let id = vfs.lookup(ROOT_INODE, "Makefile").unwrap();
    let kernel = vfs.lookup(ROOT_INODE, "kernel").unwrap();
    let other = vfs.lookup(kernel, "sched.c").unwrap();
    vfs.rename(ROOT_INODE, "Makefile", ROOT_INODE, "Makefile").unwrap();
    assert_eq!(vfs.lookup(ROOT_INODE, "Makefile").unwrap(), id);
    assert_eq!(count(&mut vfs, ROOT_INODE, id), 1);
    vfs.rename(ROOT_INODE, "Makefile", ROOT_INODE, "M").unwrap();
    assert_eq!(count(&mut vfs, ROOT_INODE, id), 1);
    assert_eq!(vfs.get_path(id).unwrap(), "M");
    // What was in the new place is gone.
    vfs.rename(ROOT_INODE, "M", kernel, "sched.c").unwrap();
    assert_eq!(count(&mut vfs, ROOT_INODE, id), 0);
    assert_eq!(count(&mut vfs, kernel, id), 1);
    assert_eq!(count(&mut vfs, kernel, other), 0);
    let path = vfs.get_path(id).unwrap();
    assert_eq!(path, "kernel/sched.c");
    assert_eq!(vfs.lookup_path(&path).unwrap(), id);
}

#[test]
fn test_a_name_that_stands_twice() {
    let mut vfs = VfsManager::new(engine(), ROOT);
    let first = vfs.mkdir(ROOT_INODE, "d").unwrap().id;
    let second = vfs.mkdir(ROOT_INODE, "d").unwrap().id;
    assert_eq!(vfs.lookup_path("d").unwrap(), second);
    vfs.remove(ROOT_INODE, "d").unwrap();
    // The first is still there, and no longer found by its name.
    let ids: Vec<u64> = vfs.list_dir(ROOT_INODE).unwrap().iter().map(|n| n.id).collect();
    assert_eq!(ids, vec![first]);
    assert_eq!(vfs.get_path(first).unwrap(), "d");
    assert!(matches!(vfs.lookup_path("d"), Err(VfsError::ChildNotFound)));
}

#[test]
fn test_pages_of_a_directory() {
    let mut nfs = file_system();
    let dir = nfs.lookup(ROOT_INODE, b"kernel").unwrap();
    let mut expected = vec![dir, ROOT_INODE, nfs.lookup(dir, b"sched.c").unwrap()];
    for i in 0..6 {
        expected.push(nfs.create(dir, format!("f{i}").as_bytes(), 1).unwrap().0);
    }
    nfs.remove(dir, b"f2", 2).unwrap();
    expected.remove(5);
    for max in 1..10 {
        let mut ids = Vec::new();
        let mut start = 0;
        loop {
            let page = nfs.readdir(dir, start, max).unwrap();
            assert!(page.entries.len() <= max);
            ids.extend(page.entries.iter().map(|e| e.fileid));
            start = *ids.last().unwrap();
            assert_eq!(page.end, ids.len() == expected.len());
            if page.end {
                break;
            }
        }
        assert_eq!(ids, expected);
    }
}

#[test]
fn test_slashes_in_paths() {
    let (e, root) = repository();
    let mut vfs = VfsManager::new(e, &root);
    let id = vfs.lookup_path("kernel/sched.c").unwrap();
    for path in ["/kernel/sched.c", "kernel/sched.c/", "kernel//sched.c", "///kernel////sched.c//"] {
        assert_eq!(vfs.lookup_path(path).unwrap(), id);
    }
    assert_eq!(vfs.lookup_path("/").unwrap(), ROOT_INODE);
    assert_eq!(vfs.lookup_path("///").unwrap(), ROOT_INODE);
}

#[test]
fn test_blob_at_hand() {
    // More objects than memory holds: the first of them are on disk only.
    let mut e = engine();
    let mut objects = TextMap::new();
    for i in 0..2100 {
        objects.insert(
            format!("{i:06}"),
            GitRawObject { obj_type: ObjectType::Blob, data: b"one".to_vec() },
        );
    }
    let mut request = BlobRequest::new("000000");
    e.get_blob_arc(&mut request, BlobEvent::Begin);
    e.get_blob_arc(&mut request, BlobEvent::Read(None));
    match e.get_blob_arc(&mut request, BlobEvent::FetchedPack(objects)) {
        BlobAction::Return(data) => assert_eq!(data.as_slice(), b"one"),
        _ => panic!("not returned"),
    }
    assert_eq!(e.known_size("000000"), Some(3));
    let mut again = BlobRequest::new("000000");
    match e.get_blob_arc(&mut again, BlobEvent::Begin) {
        BlobAction::Return(data) => assert_eq!(data.as_slice(), b"one"),
        BlobAction::ReadDisk => {
            match e.get_blob_arc(&mut again, BlobEvent::Read(Some(b"one".to_vec()))) {
                BlobAction::Return(data) => assert_eq!(data.as_slice(), b"one"),
                _ => panic!("not returned"),
            }
        }
        _ => panic!("asked for again"),
    }
    // One that could not be fetched is not there, and can be fetched again.
    let mut gone = BlobRequest::new("cccccc");
    e.get_blob_arc(&mut gone, BlobEvent::Begin);
    e.get_blob_arc(&mut gone, BlobEvent::Read(None));
    e.get_blob_arc(&mut gone, BlobEvent::Failed(EngineError::Fetch));
    assert_eq!(e.known_size("cccccc"), None);
    let mut retry = BlobRequest::new("cccccc");
    assert!(matches!(e.get_blob_arc(&mut retry, BlobEvent::Begin), BlobAction::ReadDisk));
    assert!(matches!(e.get_blob_arc(&mut retry, BlobEvent::Read(None)), BlobAction::Fetch));
}

#[test]
fn test_commit_of_a_session() {
    let mut nfs = file_system();
    assert!(nfs.build_pack("c0", "a", "m", 1).unwrap().is_none());
    let (id, _, _) = nfs.create(ROOT_INODE, b"x", 1).unwrap();
    nfs.write_data(id, 0, b"data", None, 2).unwrap();
    let pack = nfs.build_pack("c0", "a", "m", 1).unwrap().unwrap();
    assert_eq!(pack.objects.len(), 3);
}

#[test]
fn test_paths_of_nodes() {
    let (e, root) = repository();
    let mut vfs = VfsManager::new(e, &root);
    let id = vfs.lookup_path("kernel/sched.c").unwrap();
    assert_eq!(vfs.get_path(id).unwrap(), "kernel/sched.c");
    assert_eq!(vfs.lookup_path("/kernel//./sched.c/").unwrap(), id);
    assert_eq!(vfs.lookup_path("").unwrap(), ROOT_INODE);
    assert_eq!(vfs.get_path(ROOT_INODE).unwrap(), "");
    assert!(matches!(vfs.get_path(99), Err(VfsError::NodeNotFound(99))));
    assert!(matches!(vfs.lookup_path("kernel/none"), Err(VfsError::ChildNotFound)));
    assert!(matches!(
        vfs.lookup_path("Makefile/below"),
        Err(VfsError::NotADirectory(_))
    ));
    let (dir, name) = vfs.ensure_parent_dirs("a/b/c").unwrap();
    assert_eq!(name, "c");
    assert_eq!(vfs.get_path(dir).unwrap(), "a/b");
    assert!(matches!(vfs.ensure_parent_dirs("/"), Err(VfsError::EmptyPath)));
    // A directory moved below itself is no longer on any path.
    let a = vfs.lookup_path("a").unwrap();
    let b = vfs.lookup_path("a/b").unwrap();
    vfs.rename(ROOT_INODE, "a", b, "loop").unwrap();
    assert!(matches!(vfs.get_path(a), Err(VfsError::Detached(_))));
    assert_eq!(vfs.lookup(b, "..").unwrap(), a);
}

#[test]
fn test_nodes_are_kept() {
    let mut vfs = VfsManager::new(engine(), ROOT);
    let f = vfs.create_file(ROOT_INODE, "f", TreeEntryMode::ExecutableFile).unwrap();
    assert_eq!(f.mode, TreeEntryMode::ExecutableFile);
    vfs.update_file_size(f.id, 12);
    assert_eq!(vfs.get_node(f.id).unwrap().size, 12);
    assert_eq!(vfs.all_active_nodes().len(), 2);
    vfs.remove(ROOT_INODE, "f").unwrap();
    assert!(vfs.get_node(f.id).is_none());
    assert_eq!(vfs.removed_from(f.id), Some(ROOT_INODE));
    assert_eq!(vfs.all_active_nodes().len(), 1);
    assert!(vfs.list_dir(ROOT_INODE).unwrap().is_empty());
}

#[test]
fn test_staged_contents() {
    let mut s = StagingStore::new();
    assert!(!s.has_modifications());
    assert_eq!(s.write_at(5, 3, b"xy", Some(b"a")).unwrap(), 5);
    assert_eq!(s.get_staged_content(5).unwrap(), b"a\0\0xy");
    assert_eq!(s.write_at(5, 0, b"Z", Some(b"ignored")).unwrap(), 5);
    assert_eq!(s.read_at(5, 0, 2).unwrap(), (b"Z\0".to_vec(), false));
    assert_eq!(s.read_at(5, 3, 9).unwrap(), (b"xy".to_vec(), true));
    assert!(s.read_at(6, 0, 1).is_none());
    s.truncate(5, 1, None).unwrap();
    s.truncate(5, 3, None).unwrap();
    assert_eq!(s.get_staged_content(5).unwrap(), b"Z\0\0");
    assert_eq!(s.get_size(5), Some(3));
    assert_eq!(s.write_at(5, 9, b"", None).unwrap(), 3);
    s.create_file(5);
    assert_eq!(s.get_size(5), Some(0));
    assert_eq!(s.list_staged_nodes(), vec![5]);
    s.mark_deleted(9);
    assert!(s.is_deleted(9));
    s.record_changed_path(" /a/b/ ");
    s.record_changed_path("a/b");
    s.record_changed_path("//");
    assert_eq!(s.list_changed_paths(), vec!["a/b".to_string()]);
    assert!(matches!(s.write_at(5, u64::MAX, b"x", None), Err(StagingError::TooLarge)));
    assert!(matches!(s.truncate(5, u64::MAX, None), Err(StagingError::TooLarge)));
    assert_eq!(StagingStore::file_name(7), "node_7.bin");
    s.reset();
    assert!(!s.has_modifications());
    assert!(!s.is_staged(5));
}

fn read_range(
    cache: &mut BlockCache,
    disk: &mut std::collections::HashMap<Vec<String>, Vec<u8>>,
    remote: &[u8],
    pack: &str,
    offset: u64,
    len: u64,
) -> Vec<u8> {
    let mut reader = match cache.read_range(offset, len, None) {
        RangePlan::Blocks(reader) => reader,
        RangePlan::Nothing => return Vec::new(),
        RangePlan::Whole { .. } => panic!("no whole packfile"),
    };
    while let Some(index) = reader.next_block() {
        let path = cache.block_path(pack, index);
        let mut request = cache.request(pack, index);
        let mut event = BlockEvent::Begin;
        let block = loop {
            match cache.get_or_fetch_block(&mut request, event) {
                BlockAction::Return(data) => break data,
                BlockAction::ReadDisk => event = BlockEvent::Read(disk.get(&path).cloned()),
                BlockAction::Fetch { offset, len } => {
                    let from = (offset as usize).min(remote.len());
                    let to = (from + len).min(remote.len());
                    event = BlockEvent::Fetched(Some(remote[from..to].to_vec()));
                }
                _ => panic!("no block"),
            }
        };
        disk.insert(path, (*block).clone());
        reader.push_block(&block);
    }
    reader.finish()
}

#[test]
fn test_block_cache_single_and_multi_block_read() {
    let block_size = 1000;
    let mut cache = BlockCache::new(block_size);
    let mock_pack_data: Vec<u8> = (0..3500).map(|i| (i % 256) as u8).collect();
    let mut disk = std::collections::HashMap::new();

    let slice1 = read_range(&mut cache, &mut disk, &mock_pack_data, "pack-123.pack", 100, 150);
    assert_eq!(slice1.len(), 150);
    assert_eq!(slice1, &mock_pack_data[100..250]);
    let b0_path = cache.block_path("pack-123.pack", 0);
    assert_eq!(disk[&b0_path].len(), 1000);

    let slice2 = read_range(&mut cache, &mut disk, &mock_pack_data, "pack-123.pack", 900, 300);
    assert_eq!(slice2.len(), 300);
    assert_eq!(slice2, &mock_pack_data[900..1200]);
    assert!(disk.contains_key(&cache.block_path("pack-123.pack", 1)));

    let slice3 = read_range(&mut cache, &mut disk, &mock_pack_data, "pack-123.pack", 1500, 1700);
    assert_eq!(slice3.len(), 1700);
    assert_eq!(slice3, &mock_pack_data[1500..3200]);

    assert!(cache.hits() > 0);
    assert!(cache.misses() > 0);

    // A read past the end gives what there is.
    assert!(matches!(cache.read_range(5, 0, None), RangePlan::Nothing));
    let slice4 = read_range(&mut cache, &mut disk, &mock_pack_data, "pack-123.pack", 3400, 700);
    assert_eq!(slice4, &mock_pack_data[3400..]);
}

#[test]
fn test_block_cache_reads_from_full_packfile_if_present() {
    let cache = BlockCache::new(1000);
    let full_data = vec![42u8; 5000];
    let slice = match cache.read_range(50, 100, Some(full_data.len() as u64)) {
        RangePlan::Whole { len } => full_data[50..50 + len as usize].to_vec(),
        _ => panic!("Fetcher should not be called when full pack is present"),
    };
    assert_eq!(slice.len(), 100);
    assert_eq!(slice, vec![42u8; 100]);

    assert!(matches!(cache.read_range(4950, 100, Some(5000)), RangePlan::Whole { len: 50 }));
    assert!(matches!(cache.read_range(5000, 100, Some(5000)), RangePlan::Whole { len: 0 }));
    assert!(matches!(cache.read_range(0, 0, Some(5000)), RangePlan::Nothing));
}

#[test]
fn test_block_fetched_once() {
    let mut cache = BlockCache::new(10);
    let mut first = cache.request("p", 2);
    let mut second = cache.request("objects/pack/p", 2);
    assert!(matches!(
        cache.get_or_fetch_block(&mut first, BlockEvent::Begin),
        BlockAction::ReadDisk
    ));
    assert!(matches!(
        cache.get_or_fetch_block(&mut first, BlockEvent::Read(None)),
        BlockAction::Fetch { offset: 20, len: 10 }
    ));
    cache.get_or_fetch_block(&mut second, BlockEvent::Begin);
    assert!(matches!(
        cache.get_or_fetch_block(&mut second, BlockEvent::Read(None)),
        BlockAction::Wait
    ));
    // The first fails, and the second takes over.
    assert!(matches!(
        cache.get_or_fetch_block(&mut first, BlockEvent::Fetched(None)),
        BlockAction::Fail
    ));
    assert!(matches!(
        cache.get_or_fetch_block(&mut second, BlockEvent::Notified),
        BlockAction::ReadDisk
    ));
    assert!(matches!(
        cache.get_or_fetch_block(&mut second, BlockEvent::Read(None)),
        BlockAction::Fetch { .. }
    ));
    match cache.get_or_fetch_block(&mut second, BlockEvent::Fetched(Some(vec![7]))) {
        BlockAction::Return(data) => assert_eq!(data.as_slice(), [7]),
        _ => panic!("not returned"),
    }
    let mut third = cache.request("p", 2);
    match cache.get_or_fetch_block(&mut third, BlockEvent::Begin) {
        BlockAction::Return(data) => assert_eq!(data.as_slice(), [7]),
        _ => panic!("not in memory"),
    }
    assert_eq!((cache.hits(), cache.misses()), (1, 2));
}

#[test]
fn test_start_on_a_server() {
    let tree = b"100644 f\0aaaaaaaaaaaaaaaaaaaa".to_vec();
    let tree_oid = compute_git_sha1(ObjectType::Tree, &tree);
    let commit = format!("tree {tree_oid}\n\nm\n").into_bytes();
    let commit_oid = compute_git_sha1(ObjectType::Commit, &commit);
    let objects = [
        GitObjectToPack { oid: commit_oid.clone(), obj_type: ObjectType::Commit, data: commit },
        GitObjectToPack { oid: tree_oid.clone(), obj_type: ObjectType::Tree, data: tree },
    ];
    let (pack, _, _) = PackWriter::create_pack_and_index_bytes(&objects).unwrap();

    let mut e = engine();
    let mut startup = Startup::new(false);
    match e.initialize(&mut startup, StartupEvent::Resolved(commit_oid.clone())) {
        StartupAction::ReadTreePack(oid) => assert_eq!(oid, commit_oid),
        _ => panic!("the packfile on disk comes first"),
    }
    assert_eq!(e.base_commit_oid().unwrap(), commit_oid);
    match e.initialize(&mut startup, StartupEvent::Read(None)) {
        StartupAction::FetchTrees(oid) => assert_eq!(oid, commit_oid),
        _ => panic!("the server comes next"),
    }
    match e.initialize(&mut startup, StartupEvent::Read(Some(pack.clone()))) {
        StartupAction::Done(root) => assert_eq!(root, tree_oid),
        _ => panic!("not started"),
    }
    assert!(matches!(startup.stage(), StartupStage::Over));
    assert_eq!(e.get_root_tree_oid().unwrap(), tree_oid);
    assert!(e.get_tree(&tree_oid).is_some());

    // From disk, and where neither has it.
    let mut e = engine();
    let mut startup = Startup::new(false);
    e.initialize(&mut startup, StartupEvent::Resolved(commit_oid.clone()));
    assert!(matches!(
        e.initialize(&mut startup, StartupEvent::Read(Some(pack))),
        StartupAction::Done(_)
    ));
    let mut startup = Startup::new(false);
    e.initialize(&mut startup, StartupEvent::Resolved("none".to_string()));
    e.initialize(&mut startup, StartupEvent::Read(None));
    assert!(matches!(
        e.initialize(&mut startup, StartupEvent::Read(None)),
        StartupAction::Fail(EngineError::Fetch)
    ));
}

#[test]
fn test_start_in_a_bucket() {
    // The root holds `a` and `b`, and `a` holds `b` again.
    let b = b"100644 f\0bbbbbbbbbbbbbbbbbbbb".to_vec();
    let b_oid = compute_git_sha1(ObjectType::Tree, &b);
    let mut a = b"40000 b\0".to_vec();
    a.extend_from_slice(&hex::decode(&b_oid).unwrap());
    let a_oid = compute_git_sha1(ObjectType::Tree, &a);
    let mut root = b"40000 a\0".to_vec();
    root.extend_from_slice(&hex::decode(&a_oid).unwrap());
    root.extend_from_slice(b"40000 b\0");
    root.extend_from_slice(&hex::decode(&b_oid).unwrap());
    root.extend_from_slice(b"40000 gone\0");
    root.extend_from_slice(&[5u8; 20]);
    let root_oid = compute_git_sha1(ObjectType::Tree, &root);
    let commit = format!("tree {root_oid}\n").into_bytes();
    let gone_oid = "05".repeat(20);

    let mut e = GitEngine::new_auto("gs://bucket/repo/", None, Some("/home"));
    let mut startup = Startup::new(true);
    let mut read = Vec::new();
    let mut event = StartupEvent::Resolved("c".to_string());
    let found = loop {
        match e.initialize(&mut startup, event) {
            StartupAction::ReadObject(oid) => {
                let data = if oid == "c" {
                    Some(commit.clone())
                } else if oid == root_oid {
                    Some(root.clone())
                } else if oid == a_oid {
                    Some(a.clone())
                } else if oid == b_oid {
                    Some(b.clone())
                } else {
                    None
                };
                read.push(oid);
                event = StartupEvent::Read(data);
            }
            StartupAction::Done(found) => break found,
            _ => panic!("not started"),
        }
    };
    assert_eq!(found, root_oid);
    assert_eq!(e.get_root_tree_oid().unwrap(), root_oid);
    assert_eq!(read, vec!["c".to_string(), root_oid, a_oid, b_oid.clone(), gone_oid.clone()]);
    assert!(e.get_tree(&b_oid).is_some());
    assert!(e.get_tree(&gone_oid).is_none());

    // A tag leads to its commit.
    let mut startup = Startup::new(true);
    e.initialize(&mut startup, StartupEvent::Resolved("t".to_string()));
    let tag = b"object c2\ntype commit\ntag v1\n\ntree of no avail\n".to_vec();
    match e.initialize(&mut startup, StartupEvent::Read(Some(tag))) {
        StartupAction::ReadObject(oid) => assert_eq!(oid, "c2"),
        _ => panic!("not followed"),
    }
    assert_eq!(e.base_commit_oid().unwrap(), "c2");
    match e.initialize(&mut startup, StartupEvent::Read(Some(commit))) {
        StartupAction::Done(root) => assert_eq!(root, found),
        _ => panic!("not started"),
    }

    let mut startup = Startup::new(true);
    e.initialize(&mut startup, StartupEvent::Resolved("c".to_string()));
    assert!(matches!(
        e.initialize(&mut startup, StartupEvent::Read(Some(b"no tree here".to_vec()))),
        StartupAction::Fail(EngineError::NoRootTree)
    ));
}

#[test]
fn test_blobs_fetched_ahead() {
    let mut tree = Vec::new();
    for i in 0..130u8 {
        tree.extend_from_slice(format!("100644 file{i:03}\0").as_bytes());
        tree.extend_from_slice(&[i; 20]);
    }
    let mut e = engine();
    let tree_object =
        GitObjectToPack { oid: "t".to_string(), obj_type: ObjectType::Tree, data: tree };
    e.apply_recovered_objects("c", "t", &[tree_object]);
    e.store_blob(&"00".repeat(20), vec![1]);
    let batches = e.prefetch_directory_blobs("t");
    let sizes: Vec<usize> = batches.iter().map(|b| b.len()).collect();
    assert_eq!(sizes, vec![64, 64, 1]);
    assert_eq!(batches[0][0], "01".repeat(20));
    assert_eq!(batches[2][0], "81".repeat(20));
    assert!(e.prefetch_directory_blobs("unknown").is_empty());
}

#[test]
fn test_block_paths() {
    let cache = BlockCache::new(0);
    assert_eq!(cache.block_size(), 10 * 1024 * 1024);
    assert_eq!(
        cache.block_path("objects/pack/p.pack", 3),
        vec!["objects", "pack", "p.pack.blocks", "block_3.bin"]
    );
    assert_eq!(cache.full_pack_path("objects/pack/p.pack"), vec!["objects", "pack", "p.pack"]);
    assert!(cache.has_block("p.pack", 0, false, true));
    assert!(!cache.has_block("p.pack", 0, false, false));
}

#[test]
fn test_disk_cache_paths() {
    let cache = DiskCache::new("url", Some("/c"), None);
    let oid = "abcdef";
    assert_eq!(cache.blob_path(oid), vec!["/c", "blobs", "ab", "cd", "ef"]);
    assert_eq!(cache.blob_path("abc"), vec!["/c", "blobs", "abc"]);
    assert!(DiskCache::has_path(oid));
    let mut cache = DiskCache::new("url", None, Some("/home/u"));
    assert!(!cache.has_blob(oid));
    cache.put_blob(oid, 4);
    assert_eq!(cache.get_blob_size(oid), Some(4));
    assert!(cache.get_blob("other", None).is_none());
    assert_eq!(cache.get_blob(oid, Some(vec![1])).unwrap(), vec![1]);
    assert_eq!((cache.hits(), cache.misses()), (1, 1));
    let slug = hex::encode(sha1::Sha1::digest(b"url"));
    assert!(cache.blob_path(oid).contains(&slug));
}

#[test]
fn test_blob_requests() {
    let mut e = engine();
    let oid = "0123456789";
    let mut first = BlobRequest::new(oid);
    assert!(matches!(e.get_blob_arc(&mut first, BlobEvent::Begin), BlobAction::ReadDisk));
    assert!(matches!(e.get_blob_arc(&mut first, BlobEvent::Read(None)), BlobAction::Fetch));
    // Another request waits for the first.
    let mut second = BlobRequest::new(oid);
    assert!(matches!(e.get_blob_arc(&mut second, BlobEvent::Begin), BlobAction::ReadDisk));
    assert!(matches!(e.get_blob_arc(&mut second, BlobEvent::Read(None)), BlobAction::Wait));
    match e.get_blob_arc(&mut first, BlobEvent::FetchedBlob(b"data".to_vec())) {
        BlobAction::Return(data) => assert_eq!(data.as_slice(), b"data"),
        _ => panic!("not returned"),
    }
    match e.get_blob_arc(&mut second, BlobEvent::Notified) {
        BlobAction::Return(data) => assert_eq!(data.as_slice(), b"data"),
        _ => panic!("not returned"),
    }
    assert_eq!(e.known_size(oid), Some(4));
    assert_eq!(e.shown_size("other"), 1_048_576);
    // One that fails says so.
    let mut third = BlobRequest::new("gone");
    e.get_blob_arc(&mut third, BlobEvent::Begin);
    e.get_blob_arc(&mut third, BlobEvent::Read(None));
    assert!(matches!(
        e.get_blob_arc(&mut third, BlobEvent::Failed(EngineError::Fetch)),
        BlobAction::Fail(EngineError::Fetch)
    ));
    // One from a packfile that does not hold it.
    let mut fourth = BlobRequest::new("absent");
    e.get_blob_arc(&mut fourth, BlobEvent::Begin);
    e.get_blob_arc(&mut fourth, BlobEvent::Read(None));
    let none = git_nfs::maps::TextMap::new();
    assert!(matches!(
        e.get_blob_arc(&mut fourth, BlobEvent::FetchedPack(none)),
        BlobAction::Fail(EngineError::NotInPack)
    ));
}

#[test]
fn test_loading_trees() {
    let tree: Vec<u8> = {
        let mut t = b"40000 d\0".to_vec();
        t.extend_from_slice(&[9u8; 20]);
        t
    };
    let tree_oid = compute_git_sha1(ObjectType::Tree, &tree);
    let commit = format!("tree {tree_oid}\nauthor x\n\nm\n").into_bytes();
    let commit_oid = compute_git_sha1(ObjectType::Commit, &commit);
    let objects = [
        GitObjectToPack { oid: commit_oid.clone(), obj_type: ObjectType::Commit, data: commit },
        GitObjectToPack { oid: tree_oid.clone(), obj_type: ObjectType::Tree, data: tree.clone() },
    ];
    let (pack, _, _) = PackWriter::create_pack_and_index_bytes(&objects).unwrap();
    let mut e = engine();
    assert_eq!(e.load_trees(&commit_oid, &pack).unwrap(), tree_oid);
    assert_eq!(e.get_root_tree_oid().unwrap(), tree_oid);
    assert_eq!(e.get_tree(&tree_oid).unwrap().entries.len(), 1);
    assert!(matches!(e.load_trees("none", &pack), Err(EngineError::NoRootTree)));
    assert!(matches!(e.load_trees("none", b""), Err(EngineError::Pack(_))));

    let mut other = engine();
    let mut loader = TreeLoader::new(&tree_oid);
    assert_eq!(loader.next(&other).unwrap(), tree_oid);
    loader.feed(&mut other, &tree_oid, Some(&tree));
    let below = loader.next(&other).unwrap();
    assert_eq!(below, "09".repeat(20));
    loader.feed(&mut other, &below, None);
    assert!(loader.next(&other).is_none());
}

#[test]
fn test_missing_blobs() {
    let (mut e, root) = repository();
    let missing = e.missing_blobs(&root);
    assert_eq!(missing, vec!["01".repeat(20), "03".repeat(20)]);
    e.store_blob(&"01".repeat(20), vec![1]);
    assert_eq!(e.missing_blobs(&root), vec!["03".repeat(20)]);
    assert!(e.missing_blobs("unknown").is_empty());
}

#[test]
fn test_targets_and_commits() {
    match parse_target("gs://bucket/some/prefix/") {
        RepoTarget::Gcs { bucket, prefix } => {
            assert_eq!(bucket, "bucket");
            assert_eq!(prefix, "some/prefix/");
        }
        _ => panic!("no bucket"),
    }
    assert!(matches!(parse_target("https://x"), RepoTarget::Http));
    assert_eq!(find_root_tree(b"parent x\ntree abc \n").unwrap(), "abc");
    assert!(find_root_tree(b"nothing").is_none());
}

#[test]
fn test_mounting() {
    assert_eq!(
        NfsMounter::mount_command("127.0.0.1", 20490, "/mnt", true),
        vec![
            "/sbin/mount_nfs",
            "-o",
            "rw,tcp,noatime,nolocks,locallocks,port=20490,mountport=20490",
            "127.0.0.1:/",
            "/mnt"
        ]
    );
    assert_eq!(
        NfsMounter::mount_command("127.0.0.1", 1, "/mnt", false),
        vec!["mount", "-t", "nfs", "-o", "ro,tcp,port=1,mountport=1,nolock", "127.0.0.1:/", "/mnt"]
    );
    let mut mounter = NfsMounter::mounted("/mnt");
    assert_eq!(mounter.unmount(false).unwrap(), vec!["umount", "/mnt"]);
    assert!(mounter.unmount(false).is_none());
    assert_eq!(bind_address("127.0.0.1", 20490), "127.0.0.1:20490");
}

#[test]
fn test_authors_and_names() {
    assert_eq!(
        resolve_author(Some(b" Ann \n".to_vec()), Some("user"), Some(b"ann@x\n".to_vec())),
        "Ann <ann@x>"
    );
    assert_eq!(resolve_author(Some(b"\n".to_vec()), Some("user"), None), "user <git-nfs@local>");
    assert_eq!(
        resolve_author(Some(vec![0xff]), None, None),
        "git-nfs <git-nfs@local>"
    );
    assert_eq!(wal_prefix(None, "linux/"), "linux/wal/");
    assert_eq!(wal_prefix(Some("w/"), "linux/"), "w/");
    assert_eq!(
        pack_file_names("5ha"),
        ("pack-5ha.pack".to_string(), "pack-5ha.idx".to_string())
    );
}
