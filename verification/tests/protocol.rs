use git_nfs::git::gcs_storage::{
    can_cut_head, lookup_packed_ref, lookup_packed_tag, parse_loose, GcsGitStorage, ObjectReader, ReadAction,
    RefAction, RefError, StorageError,
};
use git_nfs::git::builder::GitObjectToPack;
use git_nfs::git::idx::PackIndex;
use git_nfs::git::pack::{compute_git_sha1, unpack_packfile, ObjectType, PackError};
use git_nfs::git::pack_writer::PackWriter;
use git_nfs::git::protocol::{
    are_pkt_lines, delim_pkt, encode_pkt_line, extract_pack_from_sideband, flush_pkt, is_sideband,
    parse_pkt_lines, PktError,
};
use git_nfs::git::smart_http::{GitSmartHttpClient, ResolveError};

use std::io::Write;

#[test]
fn test_encode_pkt_line() {
    let pkt = encode_pkt_line("command=ls-refs");
    assert_eq!(&pkt[..4], b"0014");
    assert_eq!(&pkt[4..], b"command=ls-refs\n");
}

#[test]
fn test_parse_pkt_lines() {
    let mut buf = Vec::new();
    buf.extend(encode_pkt_line("hello"));
    buf.extend(flush_pkt());
    buf.extend(encode_pkt_line("world"));

    let lines = parse_pkt_lines(&buf).unwrap();
    assert_eq!(lines, vec!["hello".to_string(), "world".to_string()]);
}

#[test]
fn test_pkt_line_edges() {
    assert_eq!(flush_pkt(), b"0000");
    assert_eq!(delim_pkt(), b"0001");
    assert!(!are_pkt_lines(b"0003xyz"));
    assert!(are_pkt_lines(b"zzzz"));
    assert!(parse_pkt_lines(b"zzzz").is_err());
    assert!(parse_pkt_lines(b"\xff\xff\xff\xff").is_err());
    // A packet that was cut off ends the lines.
    let mut cut = encode_pkt_line("one");
    cut.extend_from_slice(b"0020ab");
    assert_eq!(parse_pkt_lines(&cut).unwrap(), vec!["one".to_string()]);
}

fn band(channel: u8, data: &[u8]) -> Vec<u8> {
    let mut out = format!("{:04x}", data.len() + 5).into_bytes();
    out.push(channel);
    out.extend_from_slice(data);
    out
}

#[test]
fn test_sideband() {
    let mut buf = encode_pkt_line("packfile");
    buf.extend(band(2, b"progress"));
    buf.extend(band(1, b"PACK"));
    buf.extend(band(1, b"rest"));
    buf.extend(flush_pkt());
    assert!(is_sideband(&buf));
    assert_eq!(extract_pack_from_sideband(&buf).unwrap(), b"PACKrest");
    assert!(matches!(
        extract_pack_from_sideband(&band(3, b"no access")),
        Err(PktError::Remote(_))
    ));
    assert_eq!(extract_pack_from_sideband(b"01xPACKabc").is_ok(), false);
    assert_eq!(extract_pack_from_sideband(b"000PACKabc").is_err(), true);
    assert!(matches!(extract_pack_from_sideband(b""), Err(PktError::NoPack)));
    assert!(matches!(extract_pack_from_sideband(b"0009ab"), Err(PktError::TooLong)));
    assert!(!is_sideband(b"0002"));
}

#[test]
fn test_repository_urls() {
    assert_eq!(
        GitSmartHttpClient::new("https://example.com/repo//").base_url(),
        "https://example.com/repo.git"
    );
    let client = GitSmartHttpClient::new("https://example.com/repo.git");
    assert_eq!(client.base_url(), "https://example.com/repo.git");
    assert_eq!(client.endpoint(), "https://example.com/repo.git/git-upload-pack");
}

#[test]
fn test_requests() {
    let client = GitSmartHttpClient::new("u");
    assert_eq!(
        client.ls_refs_request(),
        b"0014command=ls-refs\n0012agent=git-nfs\n00010009peel\n0014ref-prefix HEAD\n001bref-prefix refs/heads/\n001aref-prefix refs/tags/\n0000"
    );
    assert_eq!(
        client.fetch_trees_request("abc"),
        b"0012command=fetch\n0012agent=git-nfs\n0001000dwant abc\n000ddeepen 1\n0015filter blob:none\n0009done\n0000"
    );
    assert_eq!(
        client.fetch_blob_request("abc"),
        b"0012command=fetch\n0012agent=git-nfs\n0001000dwant abc\n0009done\n0000"
    );
    assert_eq!(
        client.fetch_blobs_request(&vec!["abc".to_string(), "de".to_string()]),
        b"0012command=fetch\n0012agent=git-nfs\n0001000dwant abc\n000cwant de\n0009done\n0000"
    );
}

#[test]
fn test_resolve_head_over_http() {
    let client = GitSmartHttpClient::new("u");
    let mut refs = encode_pkt_line("aaaa HEAD");
    refs.extend(encode_pkt_line("bbbb refs/heads/main"));
    refs.extend(encode_pkt_line("cccc refs/heads/dev extra"));
    refs.extend(encode_pkt_line("alone"));
    assert_eq!(
        client.resolve_head(&refs, None).unwrap(),
        ("aaaa".to_string(), "HEAD".to_string())
    );
    assert_eq!(
        client.resolve_head(&refs, Some("dev")).unwrap(),
        ("cccc".to_string(), "dev".to_string())
    );
    assert_eq!(
        client.resolve_head(&refs, Some("gone")).unwrap(),
        ("aaaa".to_string(), "gone".to_string())
    );
    // Without a head it is the main branch; with one of the same commit, the head has its name.
    let mut others = encode_pkt_line("bbbb refs/heads/main");
    assert_eq!(
        client.resolve_head(&others, None).unwrap(),
        ("bbbb".to_string(), "main".to_string())
    );
    others.extend(encode_pkt_line("dddd refs/heads/master"));
    others.extend(encode_pkt_line("dddd HEAD"));
    assert_eq!(
        client.resolve_head(&others, None).unwrap(),
        ("dddd".to_string(), "master".to_string())
    );
    // A head without either branch beside it goes by the usual name.
    let mut lone = encode_pkt_line("eeee HEAD");
    lone.extend(encode_pkt_line("ffff refs/heads/dev"));
    assert_eq!(
        client.resolve_head(&lone, None).unwrap(),
        ("eeee".to_string(), "master".to_string())
    );
    assert!(matches!(client.resolve_head(b"", None), Err(ResolveError::NoRef)));
    assert!(matches!(client.resolve_head(b"zzzz", None), Err(ResolveError::Packets(_))));
}

#[test]
fn test_tags_over_http() {
    let client = GitSmartHttpClient::new("u");
    let mut refs = encode_pkt_line("aaaa HEAD");
    refs.extend(encode_pkt_line("bbbb refs/heads/master"));
    refs.extend(encode_pkt_line("cccc refs/tags/light"));
    refs.extend(encode_pkt_line("dddd refs/tags/v1 peeled:eeee"));
    refs.extend(encode_pkt_line("ffff refs/tags/master"));
    assert_eq!(
        client.resolve_head(&refs, Some("light")).unwrap(),
        ("cccc".to_string(), "light".to_string())
    );
    assert_eq!(
        client.resolve_head(&refs, Some("v1")).unwrap(),
        ("eeee".to_string(), "v1".to_string())
    );
    // Only a tag stands for another commit than its own.
    let mut others = encode_pkt_line("aaaa HEAD peeled:1111");
    others.extend(encode_pkt_line("bbbb refs/heads/dev peeled:2222"));
    assert_eq!(
        client.resolve_head(&others, None).unwrap(),
        ("aaaa".to_string(), "master".to_string())
    );
    assert_eq!(
        client.resolve_head(&others, Some("dev")).unwrap(),
        ("bbbb".to_string(), "dev".to_string())
    );
    // A branch comes before a tag of its name.
    assert_eq!(
        client.resolve_head(&refs, Some("master")).unwrap(),
        ("bbbb".to_string(), "master".to_string())
    );
}

const SHA: &str = "0123456789012345678901234567890123456789";

#[test]
fn test_resolve_head_in_bucket() {
    let storage = GcsGitStorage::new("bucket", "/linux/");
    assert_eq!(storage.bucket(), "projects/_/buckets/bucket");
    assert_eq!(storage.prefix(), "linux/");

    // The branch has a file of its own.
    let (mut request, first) = storage.begin_resolve(Some("dev"));
    assert_eq!(first, "linux/refs/heads/dev");
    let line = format!("{SHA}\n");
    match storage.resolve_head(&mut request, Some(line.as_bytes())) {
        RefAction::Resolved { commit, name } => {
            assert_eq!(commit, SHA);
            assert_eq!(name, "dev");
        }
        _ => panic!("not resolved"),
    }

    // The branch is packed.
    let (mut request, _) = storage.begin_resolve(Some("dev"));
    match storage.resolve_head(&mut request, None) {
        RefAction::Read(path) => assert_eq!(path, "linux/packed-refs"),
        _ => panic!("not read"),
    }
    let packed = format!("# pack-refs\r\n{SHA} refs/heads/dev\n^1111\n");
    assert!(matches!(
        storage.resolve_head(&mut request, Some(packed.as_bytes())),
        RefAction::Resolved { .. }
    ));

    // The head leads to a reference, and that to nothing.
    let (mut request, first) = storage.begin_resolve(None);
    assert_eq!(first, "linux/HEAD");
    match storage.resolve_head(&mut request, Some(b"ref: refs/heads/main\n")) {
        RefAction::Read(path) => assert_eq!(path, "linux/refs/heads/main"),
        _ => panic!("not read"),
    }
    assert!(matches!(
        storage.resolve_head(&mut request, Some(b"short")),
        RefAction::Read(_)
    ));
    assert!(matches!(
        storage.resolve_head(&mut request, None),
        RefAction::Fail(RefError::Unresolved)
    ));

    // The head is detached, bad, or not there.
    let (mut request, _) = storage.begin_resolve(None);
    let detached = format!("{SHA}extra");
    assert!(can_cut_head(detached.as_bytes()));
    match storage.resolve_head(&mut request, Some(detached.as_bytes())) {
        RefAction::Resolved { commit, name } => {
            assert_eq!(commit, SHA);
            assert_eq!(name, "HEAD");
        }
        _ => panic!("not resolved"),
    }
    let (mut request, _) = storage.begin_resolve(None);
    assert!(matches!(
        storage.resolve_head(&mut request, Some(b"nonsense")),
        RefAction::Fail(RefError::BadHead)
    ));
    let (mut request, _) = storage.begin_resolve(None);
    assert!(matches!(
        storage.resolve_head(&mut request, None),
        RefAction::Fail(RefError::NoHead)
    ));
    let odd = format!("{}\u{e4}x", &SHA[..39]);
    assert!(!can_cut_head(odd.as_bytes()));
}

#[test]
fn test_tags_in_bucket() {
    let storage = GcsGitStorage::new("bucket", "linux/");
    let line = format!("{SHA}\n");
    let steps = |packed: Option<&str>, tag: Option<&str>| {
        let (mut request, _) = storage.begin_resolve(Some("v1"));
        let mut action = storage.resolve_head(&mut request, None);
        let mut paths = Vec::new();
        while let RefAction::Read(path) = &action {
            let read = match path.as_str() {
                "linux/packed-refs" => packed,
                "linux/refs/tags/v1" => tag,
                _ => None,
            };
            paths.push(path.clone());
            action = storage.resolve_head(&mut request, read.map(|t| t.as_bytes()));
        }
        (paths, action)
    };
    let (paths, action) = steps(None, Some(&line));
    assert_eq!(paths, vec!["linux/packed-refs", "linux/refs/tags/v1"]);
    match action {
        RefAction::Resolved { commit, name } => {
            assert_eq!(commit, SHA);
            assert_eq!(name, "v1");
        }
        _ => panic!("not resolved"),
    }
    let packed = format!("{SHA} refs/tags/v1\n1111 refs/tags/v2\n");
    match steps(Some(&packed), None).1 {
        RefAction::Resolved { commit, .. } => assert_eq!(commit, SHA),
        _ => panic!("not resolved"),
    }
    // Where the tag is an object of its own, the next line has its commit.
    let packed = format!("1111 refs/tags/v1\n^{SHA}\n");
    match steps(Some(&packed), None).1 {
        RefAction::Resolved { commit, .. } => assert_eq!(commit, SHA),
        _ => panic!("not resolved"),
    }
    assert!(lookup_packed_tag(packed.as_bytes(), "refs/tags/v3").is_none());
    // Neither a branch nor a tag: on to the head.
    let (paths, action) = steps(None, None);
    assert_eq!(paths.last().unwrap(), "linux/HEAD");
    assert!(matches!(action, RefAction::Fail(RefError::NoHead)));
}

#[test]
fn test_packed_refs() {
    let text = b"# comment\nabc refs/heads/a\n^def refs/heads/b\n  ghi   refs/heads/b  \n";
    assert_eq!(lookup_packed_ref(text, "refs/heads/a").unwrap(), "abc");
    assert_eq!(lookup_packed_ref(text, "refs/heads/b").unwrap(), "ghi");
    assert!(lookup_packed_ref(text, "refs/heads/c").is_none());
}

fn deflated(data: &[u8]) -> Vec<u8> {
    let mut e = flate2::write::ZlibEncoder::new(Vec::new(), flate2::Compression::default());
    e.write_all(data).unwrap();
    e.finish().unwrap()
}

#[test]
fn test_loose_objects() {
    let object = parse_loose(b"tag 3\0abc").unwrap();
    assert_eq!(object.obj_type, ObjectType::Tag);
    assert_eq!(object.data, b"abc");
    assert!(matches!(parse_loose(b"blob 3"), Err(StorageError::LooseHeader)));
    assert!(matches!(parse_loose(b"blub 3\0abc"), Err(StorageError::LooseType)));

    let mut storage = GcsGitStorage::new("b", "p/");
    let oid = compute_git_sha1(ObjectType::Blob, b"hello");
    let mut reader = ObjectReader::new();
    match storage.read_object_raw(&mut reader, &oid) {
        ReadAction::ReadLoose(path) => {
            assert_eq!(path, format!("p/objects/{}/{}", &oid[..2], &oid[2..]));
        }
        _ => panic!("not loose"),
    }
    match storage.read_loose_object(&mut reader, &deflated(b"blob 5\0hello")) {
        ReadAction::Return(object) => assert_eq!(object.data, b"hello"),
        _ => panic!("not read"),
    }
    // Now it is known.
    let mut again = ObjectReader::new();
    assert!(matches!(storage.read_object_raw(&mut again, &oid), ReadAction::Return(_)));
    let mut bad = ObjectReader::new();
    assert!(matches!(
        storage.read_object_raw(&mut bad, "xyz"),
        ReadAction::Fail(StorageError::BadOid)
    ));
    assert!(matches!(
        storage.read_object_raw(&mut bad, "abcd"),
        ReadAction::Fail(StorageError::BadLength)
    ));
    let mut broken = ObjectReader::new();
    storage.read_object_raw(&mut broken, &"1".repeat(40));
    assert!(matches!(
        storage.read_loose_object(&mut broken, b"rubbish"),
        ReadAction::Fail(StorageError::LooseInflate)
    ));
}

#[test]
fn test_objects_from_packfiles() {
    let data = b"some contents".to_vec();
    let oid = compute_git_sha1(ObjectType::Blob, &data);
    let object = GitObjectToPack { oid: oid.clone(), obj_type: ObjectType::Blob, data };
    let (pack, idx, sha) = PackWriter::create_pack_and_index_bytes(&[object]).unwrap();
    let mut storage = GcsGitStorage::new("b", "");
    let idx_name = format!("objects/pack/pack-{sha}.idx");
    let names = vec![idx_name.clone(), format!("objects/pack/pack-{sha}.pack")];
    let wanted = storage.refresh_pack_indexes(&names);
    assert_eq!(wanted.len(), 1);
    assert_eq!(wanted[0].idx_name, idx_name);
    let index = PackIndex::parse(&wanted[0].pack_name, &idx).unwrap();
    storage.add_indexes(vec![index]);
    assert!(storage.refresh_pack_indexes(&names).is_empty());
    assert_eq!(storage.pack_names(), vec![names[1].clone()]);

    let mut reader = ObjectReader::new();
    match storage.read_object_raw(&mut reader, &oid) {
        ReadAction::ReadPack { pack_name, offset, estimated_len } => {
            assert_eq!(pack_name, names[1]);
            assert_eq!(offset, 12);
            assert_eq!(estimated_len, 65536);
        }
        _ => panic!("not in the packfile"),
    }
    assert!(matches!(
        storage.read_pack_object(&mut reader, &[]),
        ReadAction::Fail(StorageError::EmptyRead)
    ));
    match storage.read_pack_object(&mut reader, &pack[12..]) {
        ReadAction::Return(object) => assert_eq!(object.data, b"some contents"),
        _ => panic!("not read"),
    }
    assert_eq!(
        storage.local_pack_path(&names[1]),
        vec!["objects".to_string(), "pack".to_string(), format!("pack-{sha}.pack")]
    );
}

#[test]
fn test_deltas_from_packfiles() {
    // A base at offset 12 and a delta against it behind.
    let base = b"base base base".to_vec();
    let mut first = vec![0x30 | base.len() as u8];
    first.extend(deflated(&base));
    let delta = vec![14u8, 15, 0x90, 14, 1, b'!'];
    let mut second = vec![0x60 | delta.len() as u8, first.len() as u8];
    second.extend(deflated(&delta));
    let mut storage = GcsGitStorage::new("b", "");
    let mut result = base.clone();
    result.push(b'!');
    let oid = compute_git_sha1(ObjectType::Blob, &result);
    let mut buf = Vec::new();
    buf.extend_from_slice(b"\xfftOc");
    buf.extend_from_slice(&2u32.to_be_bytes());
    let name = hex::decode(&oid).unwrap();
    for i in 0..256usize {
        buf.extend_from_slice(&((i >= name[0] as usize) as u32).to_be_bytes());
    }
    buf.extend_from_slice(&name);
    buf.extend_from_slice(&[0u8; 4]);
    buf.extend_from_slice(&(12 + first.len() as u32).to_be_bytes());
    buf.extend_from_slice(&[0u8; 40]);
    storage.add_indexes(vec![PackIndex::parse("p.pack", &buf).unwrap()]);
    let mut reader = ObjectReader::new();
    assert!(matches!(
        storage.read_object_raw(&mut reader, &oid),
        ReadAction::ReadPack { .. }
    ));
    match storage.read_pack_object(&mut reader, &second) {
        ReadAction::ReadPack { offset, estimated_len, .. } => {
            assert_eq!(offset, 12);
            assert_eq!(estimated_len, 6);
        }
        _ => panic!("no delta"),
    }
    match storage.read_pack_object(&mut reader, &first) {
        ReadAction::Return(object) => assert_eq!(object.data, result),
        _ => panic!("not resolved"),
    }
}

fn distance(n: usize) -> Vec<u8> {
    let mut rest = n >> 7;
    let mut out = vec![(n & 0x7f) as u8];
    while rest > 0 {
        rest -= 1;
        out.insert(0, 0x80 | (rest & 0x7f) as u8);
        rest >>= 7;
    }
    out
}

fn index_of(mut names: Vec<(Vec<u8>, u32)>) -> Vec<u8> {
    names.sort();
    let mut buf = b"\xfftOc".to_vec();
    buf.extend_from_slice(&2u32.to_be_bytes());
    for i in 0..256usize {
        let count = names.iter().filter(|n| n.0[0] as usize <= i).count() as u32;
        buf.extend_from_slice(&count.to_be_bytes());
    }
    for n in &names {
        buf.extend_from_slice(&n.0);
    }
    buf.extend_from_slice(&vec![0u8; 4 * names.len()]);
    for n in &names {
        buf.extend_from_slice(&n.1.to_be_bytes());
    }
    buf.extend_from_slice(&[0u8; 40]);
    buf
}

#[test]
fn test_read_as_unpacked() {
    // A base that does not shrink, a delta that points back to it, and one that names that.
    let mut state = 12345u32;
    let base: Vec<u8> = (0..20000)
        .map(|_| {
            state ^= state << 13;
            state ^= state >> 17;
            state ^= state << 5;
            state as u8
        })
        .collect();
    let mut first = vec![0xb0, 0xe2, 0x09];
    first.extend(deflated(&base));
    let delta = [0xa0, 0x9c, 0x01, 0xa1, 0x9c, 0x01, 0xb0, 0x20, 0x4e, 1, b'!'];
    let mut second = vec![0x60 | delta.len() as u8];
    second.extend(distance(first.len()));
    second.extend(deflated(&delta));
    let mut shouted = base.clone();
    shouted.push(b'!');
    let shouted_oid = compute_git_sha1(ObjectType::Blob, &shouted);
    let other = [0xa1, 0x9c, 0x01, 0xa1, 0x9c, 0x01, 0xb0, 0x20, 0x4e, 1, b'?'];
    let mut third = vec![0x70 | other.len() as u8];
    third.extend_from_slice(&hex::decode(&shouted_oid).unwrap());
    third.extend(deflated(&other));
    let mut asked = base.clone();
    asked.push(b'?');
    let asked_oid = compute_git_sha1(ObjectType::Blob, &asked);
    let base_oid = compute_git_sha1(ObjectType::Blob, &base);

    let mut pack = b"PACK".to_vec();
    pack.extend_from_slice(&2u32.to_be_bytes());
    pack.extend_from_slice(&3u32.to_be_bytes());
    let mut names = Vec::new();
    for (oid, entry) in [(&base_oid, &first), (&shouted_oid, &second), (&asked_oid, &third)] {
        names.push((hex::decode(oid).unwrap(), pack.len() as u32));
        pack.extend_from_slice(entry);
    }
    let all = unpack_packfile(&pack).unwrap();
    for oid in [&asked_oid, &shouted_oid, &base_oid] {
        let mut storage = GcsGitStorage::new("b", "");
        let index = PackIndex::parse("p.pack", &index_of(names.clone())).unwrap();
        storage.add_indexes(vec![index]);
        let mut reader = ObjectReader::new();
        let mut action = storage.read_object_raw(&mut reader, oid);
        let mut reads = 0;
        let object = loop {
            action = match action {
                ReadAction::ReadPack { pack_name, offset, estimated_len } => {
                    assert_eq!(pack_name, "p.pack");
                    reads += 1;
                    let from = offset as usize;
                    let whole = pack.len() as u64;
                    let len = GcsGitStorage::remote_read_len(estimated_len, whole, offset);
                    storage.read_pack_object(&mut reader, &pack[from..from + len as usize])
                }
                ReadAction::Return(object) => break object,
                _ => panic!("not read"),
            };
        };
        assert_eq!(object.data, all.get(oid).unwrap().data);
        // The length of a delta says nothing of its base: that is asked for again.
        assert_eq!(reads > 2, oid != &base_oid);
    }

    // At the end of the packfile there is nothing more to ask for.
    let mut storage = GcsGitStorage::new("b", "");
    let index = PackIndex::parse("p.pack", &index_of(names)).unwrap();
    storage.add_indexes(vec![index]);
    let mut reader = ObjectReader::new();
    storage.read_object_raw(&mut reader, &base_oid);
    assert!(matches!(
        storage.read_pack_object(&mut reader, &pack[12..100]),
        ReadAction::Fail(StorageError::Pack(PackError::Inflate))
    ));
}

#[test]
fn test_packets_of_all_kinds() {
    let mut data = delim_pkt();
    data.extend(encode_pkt_line("one"));
    data.extend(flush_pkt());
    data.extend(delim_pkt());
    data.extend(encode_pkt_line("two"));
    let whole = data.len();
    data.extend(encode_pkt_line("three"));
    for end in whole..data.len() {
        assert_eq!(parse_pkt_lines(&data[..end]).unwrap(), vec!["one", "two"]);
    }
    assert_eq!(parse_pkt_lines(&data).unwrap(), vec!["one", "two", "three"]);

    // What is cut off may end in anything.
    data.truncate(whole);
    data.extend(encode_pkt_line("four\n"));
    for end in whole..data.len() {
        assert_eq!(parse_pkt_lines(&data[..end]).unwrap(), vec!["one", "two"]);
    }
}

#[test]
fn test_doubled_names_in_a_pack() {
    // One blob twice, once whole and once as a delta of another.
    let whole = b"hello!".to_vec();
    let start = b"hello".to_vec();
    let mut first = vec![0x30 | start.len() as u8];
    first.extend(deflated(&start));
    let delta = [5, 6, 0x90, 5, 1, b'!'];
    let mut second = vec![0x60 | delta.len() as u8];
    second.extend(distance(first.len()));
    second.extend(deflated(&delta));
    let mut third = vec![0x30 | whole.len() as u8];
    third.extend(deflated(&whole));
    let start_oid = compute_git_sha1(ObjectType::Blob, &start);
    let whole_oid = compute_git_sha1(ObjectType::Blob, &whole);
    let mut pack = b"PACK".to_vec();
    pack.extend_from_slice(&2u32.to_be_bytes());
    pack.extend_from_slice(&3u32.to_be_bytes());
    let mut names = Vec::new();
    for (oid, entry) in [(&start_oid, &first), (&whole_oid, &second), (&whole_oid, &third)] {
        names.push((hex::decode(oid).unwrap(), pack.len() as u32));
        pack.extend_from_slice(entry);
    }
    let all = unpack_packfile(&pack).unwrap();
    assert_eq!(all.get(&whole_oid).unwrap().data, whole);
    // Whichever of the two the index has, it is read as what it stands for.
    for left_out in [None, Some(1usize), Some(2)] {
        let mut kept = names.clone();
        if let Some(i) = left_out {
            kept.remove(i);
        }
        let mut storage = GcsGitStorage::new("b", "");
        storage.add_indexes(vec![PackIndex::parse("p.pack", &index_of(kept)).unwrap()]);
        let mut reader = ObjectReader::new();
        let mut action = storage.read_object_raw(&mut reader, &whole_oid);
        let object = loop {
            action = match action {
                ReadAction::ReadPack { offset, .. } => {
                    storage.read_pack_object(&mut reader, &pack[offset as usize..])
                }
                ReadAction::Return(object) => break object,
                _ => panic!("not read"),
            };
        };
        assert_eq!(object.data, whole);
    }
}

#[test]
fn test_read_lengths() {
    assert_eq!(GcsGitStorage::local_read_len(10, 100_000, 0), 4096);
    assert_eq!(GcsGitStorage::local_read_len(5000, 100_000, 0), 5064);
    assert_eq!(GcsGitStorage::local_read_len(5000, 1000, 900), 100);
    assert_eq!(GcsGitStorage::local_read_len(5000, 1000, 1900), 0);
    assert_eq!(GcsGitStorage::remote_read_len(1, 100_000, 0), 4096);
    assert_eq!(GcsGitStorage::remote_read_len(5000, 100_000, 0), 5000);
    assert_eq!(GcsGitStorage::remote_read_len(5000, 1000, 900), 100);
    assert_eq!(GcsGitStorage::remote_read_len(5000, 1000, 1900), 0);
}

#[test]
fn test_completed_commit_files() {
    let storage = GcsGitStorage::new("projects/x", "r/");
    assert_eq!(storage.bucket(), "projects/x");
    let files = storage.write_completed_commit("c0ffee", "5ha", b"P", b"I", None);
    let names: Vec<&str> = files.iter().map(|f| f.name.as_str()).collect();
    assert_eq!(
        names,
        vec![
            "r/objects/pack/pack-5ha.pack",
            "r/objects/pack/pack-5ha.idx",
            "r/HEAD",
            "r/refs/heads/master"
        ]
    );
    assert_eq!(files[0].data, b"P");
    assert_eq!(files[1].data, b"I");
    assert_eq!(files[2].data, b"c0ffee\n");
    let files = storage.write_completed_commit("c0ffee", "5ha", b"P", b"I", Some("dev"));
    assert_eq!(files[3].name, "r/refs/heads/dev");
}

#[test]
fn test_published_commit_is_resolved() {
    let storage = GcsGitStorage::new("bucket", "repo/");
    let commit = "0123456789abcdef0123456789abcdef01234567";
    let files = storage.write_completed_commit(commit, "5ha", b"pack", b"idx", Some("dev"));
    let read = |path: &str| {
        files.iter().find(|f| f.name == path).map(|f| f.data.clone())
    };
    for (branch, found) in [(None, "HEAD"), (Some("dev"), "dev")] {
        let (mut request, path) = storage.begin_resolve(branch);
        let data = read(&path).unwrap();
        assert!(can_cut_head(&data));
        match storage.resolve_head(&mut request, Some(&data)) {
            RefAction::Resolved { commit: c, name } => {
                assert_eq!(c, commit);
                assert_eq!(name, found);
            }
            other => panic!("not resolved: {other:?}"),
        }
    }
}
