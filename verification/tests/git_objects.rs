use sha1::Digest;
use std::cmp::Ordering;

use git_nfs::cache::memory::MemoryCache;
use git_nfs::git::builder::{compare_tree_entries, GitObjectToPack};
use git_nfs::git::commit_message::generate_commit_message;
use git_nfs::git::idx::{IndexError, PackIndex};
use git_nfs::git::pack::{
    apply_git_delta, compute_git_sha1, decode_varint, read_entry, unpack_packfile, ObjectType,
    PackEntry, PackError,
};
use git_nfs::git::pack_writer::{PackWriter, WriteError};
use git_nfs::git::tree::{GitTree, TreeEntryMode, TreeError};
use git_nfs::vfs::filter::is_apple_metadata;

use std::io::Write;
use std::sync::Arc;

#[test]
fn test_canonical_tree_sorting() {
    assert_eq!(compare_tree_entries("foo.c", false, "foo", true), Ordering::Less);
    assert_eq!(compare_tree_entries("foo", true, "foo1", false), Ordering::Less);
}

#[test]
fn test_tree_sorting_is_total() {
    assert_eq!(compare_tree_entries("foo", false, "foo", true), Ordering::Less);
    assert_eq!(compare_tree_entries("foo", true, "foo", false), Ordering::Greater);
    assert_eq!(compare_tree_entries("foo", true, "foo", true), Ordering::Equal);
    assert_eq!(compare_tree_entries("b", false, "a", false), Ordering::Greater);
    assert_eq!(compare_tree_entries("", false, "a", false), Ordering::Less);
    assert_eq!(compare_tree_entries("z", false, "\u{e4}", false), Ordering::Less);
}

#[test]
fn test_empty_paths() {
    assert_eq!(generate_commit_message(&[]), "Empty commit: no files changed");
    assert_eq!(
        generate_commit_message(&["   ".to_string(), "/".to_string()]),
        "Empty commit: no files changed"
    );
}

#[test]
fn test_filters_apple_metadata() {
    let paths = vec![
        ".DS_Store".to_string(),
        "src/._foo.c".to_string(),
        ".Spotlight-V100/store.db".to_string(),
    ];
    assert_eq!(generate_commit_message(&paths), "Empty commit: no files changed");
}

#[test]
fn test_single_file() {
    let paths = vec!["Makefile".to_string()];
    assert_eq!(generate_commit_message(&paths), "Update Makefile");

    let paths_nested = vec!["src/main.rs".to_string()];
    assert_eq!(generate_commit_message(&paths_nested), "Update src/main.rs");
}

#[test]
fn test_two_and_three_files() {
    let paths2 = vec!["b.txt".to_string(), "a.txt".to_string()];
    assert_eq!(generate_commit_message(&paths2), "Update a.txt, b.txt");

    let paths3 = vec![
        "src/main.rs".to_string(),
        "Cargo.toml".to_string(),
        "README.md".to_string(),
    ];
    assert_eq!(
        generate_commit_message(&paths3),
        "Update Cargo.toml, README.md, src/main.rs"
    );
}

#[test]
fn test_many_files_single_dir() {
    let paths: Vec<String> = (1..=5).map(|i| format!("src/file_{i}.rs")).collect();
    let msg = generate_commit_message(&paths);
    assert!(msg.starts_with("Update 5 files in src/\n\nChanged directories:\n- src/ (5 files)"));
}

#[test]
fn test_many_files_multiple_dirs() {
    let mut paths = vec![
        "src/a.rs".to_string(),
        "src/b.rs".to_string(),
        "src/c.rs".to_string(),
        "tests/test1.rs".to_string(),
        "Cargo.toml".to_string(),
    ];
    let msg = generate_commit_message(&paths);
    assert!(msg.starts_with(
        "Update 5 files across src/, root/, tests/\n\nChanged directories:\n- src/ (3 files)"
    ));

    paths.push("doc/readme.md".to_string());
    let msg2 = generate_commit_message(&paths);
    assert!(msg2.starts_with("Update 6 files across src/"));
    assert!(msg2.contains("(and 2 other directories)"));
}

#[test]
fn test_apple_metadata_filter() {
    assert!(is_apple_metadata(".DS_Store"));
    assert!(is_apple_metadata("._Makefile"));
    assert!(is_apple_metadata(".Spotlight-V100"));
    assert!(is_apple_metadata(".Trashes"));
    assert!(!is_apple_metadata("Makefile"));
    assert!(!is_apple_metadata("main.rs"));
    assert!(!is_apple_metadata(".gitignore"));
}

#[test]
fn test_memory_cache_lru() {
    let mut cache = MemoryCache::new(2);
    let b1 = Arc::new(vec![1, 2, 3]);
    let b2 = Arc::new(vec![4, 5, 6]);
    let b3 = Arc::new(vec![7, 8, 9]);

    cache.put("oid1", b1.clone());
    cache.put("oid2", b2.clone());

    assert_eq!(cache.get("oid1").unwrap().as_slice(), &[1, 2, 3]);
    assert_eq!(cache.hits(), 1);

    cache.put("oid3", b3.clone());
    assert!(cache.get("oid2").is_none());
    assert_eq!(cache.misses(), 1);

    assert!(cache.get("oid1").is_some());
    assert!(cache.get("oid3").is_some());
}

#[test]
fn test_memory_cache_many_and_clear() {
    let mut cache = MemoryCache::new(3);
    let items = vec![
        ("a".to_string(), Arc::new(vec![1u8])),
        ("b".to_string(), Arc::new(vec![2u8])),
        ("a".to_string(), Arc::new(vec![3u8])),
    ];
    cache.put_many(&items);
    assert_eq!(cache.get("a").unwrap().as_slice(), &[3]);
    assert_eq!(cache.get("b").unwrap().as_slice(), &[2]);
    cache.clear();
    assert!(cache.get("a").is_none());
    assert!(cache.get("b").is_none());
}

#[test]
fn test_parse_idx() {
    let mut buf = Vec::new();
    buf.extend_from_slice(b"\xfftOc");
    buf.extend_from_slice(&2u32.to_be_bytes());

    let mut fanout = [0u32; 256];
    fanout[0x12] = 1;
    for i in 0x13..256 {
        fanout[i] = 1;
    }
    for count in fanout {
        buf.extend_from_slice(&count.to_be_bytes());
    }

    let mut sha = [0u8; 20];
    sha[0] = 0x12;
    sha[1] = 0x34;
    buf.extend_from_slice(&sha);
    buf.extend_from_slice(&0x11223344u32.to_be_bytes());
    buf.extend_from_slice(&100u32.to_be_bytes());
    buf.extend_from_slice(&[0xaa; 20]);
    buf.extend_from_slice(&[0xbb; 20]);

    let parsed = PackIndex::parse("test.pack", &buf).unwrap();
    assert_eq!(parsed.object_count(), 1);

    let (off, len) = parsed.find_offset(&sha).unwrap();
    assert_eq!(off, 100);
    assert_eq!(len, 64 * 1024);

    let mut missing_sha = sha;
    missing_sha[1] = 0x99;
    assert!(parsed.find_offset(&missing_sha).is_none());

    assert_eq!(parsed.pack_sha_hex(), "aa".repeat(20));
    assert_eq!(parsed.name(), "test.pack");
}

#[test]
fn test_idx_errors() {
    assert!(matches!(PackIndex::parse("p", &[0u8; 100]), Err(IndexError::TooShort)));
    let mut buf = vec![0u8; 8 + 1024 + 40];
    assert!(matches!(PackIndex::parse("p", &buf), Err(IndexError::BadMagic)));
    buf[..4].copy_from_slice(b"\xfftOc");
    buf[7] = 3;
    assert!(matches!(PackIndex::parse("p", &buf), Err(IndexError::BadVersion(3))));
    buf[7] = 2;
    buf[8 + 1023] = 5;
    assert!(matches!(PackIndex::parse("p", &buf), Err(IndexError::Truncated)));
    let mut large = vec![0u8; 8 + 1024 + 28 + 40];
    large[..4].copy_from_slice(b"\xfftOc");
    large[7] = 2;
    large[8 + 1023] = 1;
    large[8 + 1024 + 24] = 0x80;
    assert!(matches!(PackIndex::parse("p", &large), Err(IndexError::LargeOffset)));
}

#[test]
fn test_apply_git_delta() {
    let base = b"The quick brown fox jumps over the lazy dog";
    let mut delta = Vec::new();
    delta.push(43);
    delta.push(42);
    delta.push(0x90);
    delta.push(20);
    delta.push(10);
    delta.extend_from_slice(b"runs past ");
    delta.push(0x91);
    delta.push(31);
    delta.push(12);

    let res = apply_git_delta(base, &delta).unwrap();
    assert_eq!(res, b"The quick brown fox runs past the lazy dog");
}

#[test]
fn test_delta_errors() {
    let base = b"base";
    assert!(matches!(apply_git_delta(base, &[]), Err(PackError::VarintStart)));
    assert!(matches!(apply_git_delta(base, &[0x80]), Err(PackError::VarintContinuation)));
    assert!(matches!(apply_git_delta(base, &[4, 1, 0x81]), Err(PackError::DeltaTruncated)));
    assert!(matches!(
        apply_git_delta(base, &[4, 9, 0x90, 9]),
        Err(PackError::CopyOutOfRange)
    ));
    assert!(matches!(apply_git_delta(base, &[4, 2, 2, b'x']), Err(PackError::InsertOutOfRange)));
    assert!(matches!(apply_git_delta(base, &[4, 1, 0]), Err(PackError::OpcodeZero)));
    assert!(matches!(apply_git_delta(base, &[4, 2, 1, b'x']), Err(PackError::SizeMismatch)));
    assert_eq!(apply_git_delta(base, &[4, 4, 0x90, 4]).unwrap(), b"base");
}

#[test]
fn test_decode_varint_values() {
    assert_eq!(decode_varint(&[0x05], 0).unwrap(), (5, 1));
    assert_eq!(decode_varint(&[0xff, 0xac, 0x02], 1).unwrap(), (300, 3));
    assert!(matches!(decode_varint(&[1], 1), Err(PackError::VarintStart)));
}

#[test]
fn test_compute_git_sha1() {
    let content = b"hello\n";
    let sha = compute_git_sha1(ObjectType::Blob, content);
    assert_eq!(sha, "ce013625030ba8dba906f756967f9e9ca394464a");
}

#[test]
fn test_empty_tree_sha1() {
    assert_eq!(
        compute_git_sha1(ObjectType::Tree, b""),
        "4b825dc642cb6eb9a060e54bf8d69288fbee4904"
    );
}

#[test]
fn test_object_types() {
    for n in 0u8..=8 {
        match ObjectType::from_u8(n) {
            Ok(t) => assert_eq!(t.to_u8(), n),
            Err(e) => assert_eq!(e, PackError::UnknownType(n)),
        }
    }
    assert_eq!(ObjectType::Commit.type_str(), "commit");
    assert_eq!(ObjectType::OfsDelta.type_str(), "unknown");
}

fn blob(data: &[u8]) -> GitObjectToPack {
    GitObjectToPack {
        oid: compute_git_sha1(ObjectType::Blob, data),
        obj_type: ObjectType::Blob,
        data: data.to_vec(),
    }
}

#[test]
fn test_create_pack_and_index() {
    let obj1 = GitObjectToPack {
        oid: "ce013625030ba8dba906f756967f9e9ca394464a".to_string(),
        obj_type: ObjectType::Blob,
        data: b"hello\n".to_vec(),
    };
    let (pack_bytes, idx_bytes, _) = PackWriter::create_pack_and_index_bytes(&[obj1]).unwrap();
    assert!(!idx_bytes.is_empty());
    assert_eq!(&pack_bytes[..4], b"PACK");
    assert_eq!(&pack_bytes[4..8], &2u32.to_be_bytes());
}

#[test]
fn test_pack_is_read_back() {
    let objects: Vec<GitObjectToPack> = (0..40u32)
        .map(|i| blob(&vec![i as u8; (i * 37) as usize]))
        .collect();
    let (pack, idx, sha) = PackWriter::create_pack_and_index_bytes(&objects).unwrap();
    let all = unpack_packfile(&pack).unwrap();
    assert_eq!(all.len(), 40);
    let index = PackIndex::parse("x.pack", &idx).unwrap();
    assert_eq!(index.object_count(), 40);
    assert_eq!(index.pack_sha_hex(), sha);
    for o in &objects {
        assert_eq!(all.get(&o.oid).unwrap().data, o.data);
        let mut name = [0u8; 20];
        name.copy_from_slice(&hex::decode(&o.oid).unwrap());
        let (offset, _) = index.find_offset(&name).unwrap();
        let (entry, size, _) = read_entry(&pack, offset as usize, offset).unwrap();
        assert_eq!(size as usize, o.data.len());
        match entry {
            PackEntry::Base(object) => assert_eq!(object.data, o.data),
            _ => panic!("not a base object"),
        }
    }
}

#[test]
fn test_index_answers() {
    let objects: Vec<GitObjectToPack> = (0..30u32)
        .map(|i| blob(&vec![i as u8; (i * 91) as usize]))
        .collect();
    let (_, idx, _) = PackWriter::create_pack_and_index_bytes(&objects).unwrap();
    let index = PackIndex::parse("x.pack", &idx).unwrap();
    let find = |oid: &str| {
        let mut name = [0u8; 20];
        name.copy_from_slice(&hex::decode(oid).unwrap());
        index.find_offset(&name)
    };
    // The entries stand in the order of the objects, one behind the other.
    for (i, o) in objects.iter().enumerate() {
        let (offset, len) = find(&o.oid).unwrap();
        match objects.get(i + 1) {
            Some(next) => assert_eq!(offset + len, find(&next.oid).unwrap().0),
            None => assert_eq!(len, 65536),
        }
    }
    for i in 0..=255u8 {
        assert!(find(&hex::encode([i; 20])).is_none());
    }
}

#[test]
fn test_pack_checksums() {
    let (pack, idx, sha) = PackWriter::create_pack_and_index_bytes(&[blob(b"x")]).unwrap();
    let body = pack.len() - 20;
    let digest = sha1::Sha1::digest(&pack[..body]);
    assert_eq!(&pack[body..], digest.as_slice());
    assert_eq!(sha, hex::encode(digest));
    let end = idx.len() - 20;
    assert_eq!(&idx[end..], sha1::Sha1::digest(&idx[..end]).as_slice());
    let mut crc = flate2::Crc::new();
    crc.update(&pack[12..body]);
    assert_eq!(&idx[8 + 1024 + 20..8 + 1024 + 24], &crc.sum().to_be_bytes());
}

#[test]
fn test_pack_writer_refuses_bad_names() {
    let mut o = blob(b"x");
    o.oid = "not hexadecimal".to_string();
    assert!(matches!(
        PackWriter::create_pack_and_index_bytes(&[o]),
        Err(WriteError::BadOid)
    ));
}

fn deflated(data: &[u8]) -> Vec<u8> {
    let mut e = flate2::write::ZlibEncoder::new(Vec::new(), flate2::Compression::default());
    e.write_all(data).unwrap();
    e.finish().unwrap()
}

fn pack_of(entries: &[Vec<u8>]) -> Vec<u8> {
    let mut pack = b"PACK".to_vec();
    pack.extend_from_slice(&2u32.to_be_bytes());
    pack.extend_from_slice(&(entries.len() as u32).to_be_bytes());
    for e in entries {
        pack.extend_from_slice(e);
    }
    pack
}

#[test]
fn test_unpack_resolves_deltas() {
    let base = b"hello world, this is the base".to_vec();
    let mut first = vec![0x30 | (base.len() as u8 & 15) | 0x80, (base.len() >> 4) as u8];
    first.extend(deflated(&base));
    // Copies all of the base, then adds an exclamation mark.
    let delta = vec![base.len() as u8, base.len() as u8 + 1, 0x90, base.len() as u8, 1, b'!'];
    let mut second = vec![0x60 | delta.len() as u8, first.len() as u8];
    second.extend(deflated(&delta));
    let mut third = vec![0x70 | delta.len() as u8];
    third.extend_from_slice(&hex::decode(compute_git_sha1(ObjectType::Blob, &base)).unwrap());
    let other = vec![base.len() as u8, base.len() as u8 + 1, 0x90, base.len() as u8, 1, b'?'];
    third.extend(deflated(&other));
    let all = unpack_packfile(&pack_of(&[third, first, second])).unwrap();
    assert_eq!(all.len(), 3);
    let mut shouted = base.clone();
    shouted.push(b'!');
    let mut asked = base.clone();
    asked.push(b'?');
    assert_eq!(
        all.get(&compute_git_sha1(ObjectType::Blob, &shouted)).unwrap().data,
        shouted
    );
    assert_eq!(all.get(&compute_git_sha1(ObjectType::Blob, &asked)).unwrap().data, asked);
}

#[test]
fn test_unpack_errors() {
    assert!(matches!(unpack_packfile(b"PACK"), Err(PackError::TooShort)));
    assert!(matches!(unpack_packfile(&[0u8; 32]), Err(PackError::BadMagic)));
    let mut v = pack_of(&[]);
    v[7] = 9;
    v.extend_from_slice(&[0u8; 20]);
    assert!(matches!(unpack_packfile(&v), Err(PackError::BadVersion(9))));
    let cut = pack_of(&[vec![], vec![]]);
    assert!(matches!(
        unpack_packfile(&cut),
        Err(PackError::EntryStart) | Err(PackError::TooShort)
    ));
    assert!(matches!(
        unpack_packfile(&pack_of(&[vec![0xb0; 1]])),
        Err(PackError::SizeContinuation) | Err(PackError::TooShort)
    ));
    let mut orphan = vec![0x75];
    orphan.extend_from_slice(&[7u8; 20]);
    orphan.extend(deflated(b"abcde"));
    assert!(matches!(unpack_packfile(&pack_of(&[orphan])), Err(PackError::MissingBases(1))));
    assert!(matches!(read_entry(&[0x61, 5], 0, 3), Err(PackError::NegativeBase)));
    assert!(matches!(read_entry(&[0x61], 0, 3), Err(PackError::OffsetStart)));
    assert!(matches!(read_entry(&[0x61, 0x80], 0, 3), Err(PackError::OffsetContinuation)));
    assert!(matches!(read_entry(&[0x71, 1, 2], 0, 3), Err(PackError::BaseName)));
    assert!(matches!(read_entry(&[0x31, 1, 2, 3], 0, 3), Err(PackError::Inflate)));
    assert!(matches!(read_entry(&[0x51, 1, 2, 3], 0, 3), Err(PackError::UnknownType(5))));
}

#[test]
fn test_tree_parser() {
    let mut raw = Vec::new();
    raw.extend_from_slice(b"100644 Makefile\0");
    raw.extend_from_slice(&[1u8; 20]);
    raw.extend_from_slice(b"40000 kernel\0");
    raw.extend_from_slice(&[2u8; 20]);

    let tree = GitTree::parse(&raw).unwrap();
    assert_eq!(tree.entries.len(), 2);
    assert_eq!(tree.entries[0].name, "Makefile");
    assert_eq!(tree.entries[0].mode, TreeEntryMode::RegularFile);
    assert_eq!(tree.entries[1].name, "kernel");
    assert_eq!(tree.entries[1].mode, TreeEntryMode::Directory);
    assert!(tree.entries[1].mode.is_dir());

    assert_eq!(tree.find("kernel").unwrap().oid, "02".repeat(20));
    assert!(tree.find("nothing").is_none());
}

#[test]
fn test_tree_errors_and_modes() {
    assert!(GitTree::parse(b"").unwrap().entries.is_empty());
    assert!(matches!(GitTree::parse(b"100644"), Err(TreeError::NoSpace)));
    assert!(matches!(GitTree::parse(b"100644 name"), Err(TreeError::NoNull)));
    assert!(matches!(GitTree::parse(b"100644 name\0123"), Err(TreeError::Truncated)));
    assert_eq!(TreeEntryMode::from_mode_str("040000"), TreeEntryMode::Directory);
    assert_eq!(TreeEntryMode::from_mode_str("160000"), TreeEntryMode::Submodule);
    assert_eq!(TreeEntryMode::from_mode_str("100664"), TreeEntryMode::Other(0o100664));
    assert_eq!(TreeEntryMode::from_mode_str("rubbish"), TreeEntryMode::Other(0o100644));
    assert_eq!(TreeEntryMode::Other(0o100664).mode_str(), "100664");
    assert_eq!(TreeEntryMode::Symlink.posix_mode(), 0o120777);
    assert!(TreeEntryMode::Symlink.is_symlink());
}
