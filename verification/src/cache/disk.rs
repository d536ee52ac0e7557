//! The layout of the blobs and packs that are kept on disk, and what is known of them.

use vstd::prelude::*;

use crate::bytes;
use crate::cache::memory;
use crate::git::hash;
use crate::maps::TextMap;
use crate::text;

verus! {

/// The characters of the segments of a path.
pub open spec fn segments(path: Seq<String>) -> Seq<Seq<char>> {
    path.map_values(|s: String| s@)
}

/// Where the cache lies, the sizes of the blobs that are known to be on disk, and how often a
/// blob was read from there.
#[verifier::ext_equal]
pub struct DiskView {
    pub base: Seq<Seq<char>>,
    pub sizes: Map<Seq<char>, u64>,
    pub hits: u64,
    pub misses: u64,
}

/// The directory that a repository's cache lies in: the one that was asked for, or one named
/// after the digest of the repository's address.
pub open spec fn base_path(
    repo_url: Seq<char>,
    custom_dir: Option<Seq<char>>,
    home: Option<Seq<char>>,
) -> Seq<Seq<char>> {
    match custom_dir {
        Some(dir) => seq![dir],
        None => seq![
            match home {
                Some(h) => h,
                None => "/tmp"@,
            },
            ".cache"@,
            "git-nfs"@,
            hash::hex_encoded(hash::sha1(vstd::utf8::encode_utf8(repo_url))),
        ],
    }
}

/// Whether a name can be cut behind its second and its fourth byte.
pub open spec fn is_splittable(oid: Seq<char>) -> bool {
    let b = vstd::utf8::encode_utf8(oid);
    b.len() >= 4 ==> vstd::utf8::valid_utf8(b.subrange(0, 2)) && vstd::utf8::valid_utf8(
        b.subrange(2, 4),
    ) && vstd::utf8::valid_utf8(b.skip(4))
}

/// Where a blob lies below the cache's directory: in two levels of directories, named by the
/// first two bytes of its name and the next two.
pub open spec fn blob_segments(oid: Seq<char>) -> Seq<Seq<char>> {
    let b = vstd::utf8::encode_utf8(oid);
    if b.len() >= 4 {
        seq![
            "blobs"@,
            vstd::utf8::decode_utf8(b.subrange(0, 2)),
            vstd::utf8::decode_utf8(b.subrange(2, 4)),
            vstd::utf8::decode_utf8(b.skip(4)),
        ]
    } else {
        seq!["blobs"@, oid]
    }
}

pub struct DiskCache {
    base_dir: Vec<String>,
    sizes: TextMap<u64>,
    hits: u64,
    misses: u64,
}

impl View for DiskCache {
    type V = DiskView;

    closed spec fn view(&self) -> DiskView {
        DiskView {
            base: segments(self.base_dir@),
            sizes: self.sizes@,
            hits: self.hits,
            misses: self.misses,
        }
    }
}

impl DiskCache {
    pub closed spec fn wf(&self) -> bool {
        self.sizes.wf()
    }

    /// The cache of a repository, in the directory that was asked for or else below the home
    /// directory, where there is one.
    pub fn new(repo_url: &str, custom_dir: Option<&str>, home: Option<&str>) -> (cache: Self)
        ensures
            cache.wf(),
            cache@ == (DiskView {
                base: base_path(
                    repo_url@,
                    match custom_dir {
                        Some(d) => Some(d@),
                        None => None,
                    },
                    match home {
                        Some(h) => Some(h@),
                        None => None,
                    },
                ),
                sizes: Map::empty(),
                hits: 0,
                misses: 0,
            }),
    {
        let mut base_dir: Vec<String> = Vec::new();
        match custom_dir {
            Some(dir) => {
                base_dir.push(dir.to_string());
                assert(segments(base_dir@) =~= seq![dir@]);
            },
            None => {
                let digest = hash::sha1_of(repo_url.as_bytes());
                let top: String = match home {
                    Some(h) => h.to_string(),
                    None => "/tmp".to_string(),
                };
                let slug = hash::hex_encode(&digest);
                base_dir.push(top);
                base_dir.push(".cache".to_string());
                base_dir.push("git-nfs".to_string());
                base_dir.push(slug);
                assert(segments(base_dir@) =~= seq![top@, ".cache"@, "git-nfs"@, slug@]);
            },
        }
        DiskCache { base_dir, sizes: TextMap::new(), hits: 0, misses: 0 }
    }

    fn base(&self) -> (path: Vec<String>)
        ensures
            segments(path@) == self@.base,
            path@.len() == self@.base.len(),
    {
        let mut path: Vec<String> = Vec::new();
        let mut i: usize = 0;
        while i < self.base_dir.len()
            invariant
                i <= self.base_dir@.len(),
                path@.len() == i,
                forall|j: int| 0 <= j < i ==> (#[trigger] path@[j])@ == self.base_dir@[j]@,
            decreases self.base_dir@.len() - i,
        {
            path.push(self.base_dir[i].clone());
            i += 1;
        }
        assert(segments(path@) =~= self@.base);
        path
    }

    /// Whether the path of a blob can be formed.
    pub fn has_path(oid: &str) -> (r: bool)
        ensures
            r == is_splittable(oid@),
    {
        let b = text::bytes_of(oid);
        if b.len() < 4 {
            return true;
        }
        let rest = bytes::copy_range(b.as_slice(), 4, b.len());
        assert(rest@ =~= b@.skip(4));
        text::from_utf8(bytes::copy_range(b.as_slice(), 0, 2)).is_some() && text::from_utf8(
            bytes::copy_range(b.as_slice(), 2, 4),
        ).is_some() && text::from_utf8(rest).is_some()
    }

    /// The segments of a blob's path.
    pub fn blob_path(&self, oid: &str) -> (path: Vec<String>)
        requires
            is_splittable(oid@),
        ensures
            segments(path@) == self@.base + blob_segments(oid@),
    {
        let mut path = self.base();
        let ghost base = path@;
        path.push("blobs".to_string());
        let b = text::bytes_of(oid);
        if b.len() >= 4 {
            let rest = bytes::copy_range(b.as_slice(), 4, b.len());
            assert(rest@ =~= b@.skip(4));
            let first = text::from_utf8(bytes::copy_range(b.as_slice(), 0, 2));
            let second = text::from_utf8(bytes::copy_range(b.as_slice(), 2, 4));
            let third = text::from_utf8(rest);
            match (first, second, third) {
                (Some(x), Some(y), Some(z)) => {
                    path.push(x);
                    path.push(y);
                    path.push(z);
                },
                _ => {},
            }
        } else {
            path.push(oid.to_string());
        }
        assert(segments(path@) =~= segments(base) + blob_segments(oid@));
        path
    }

    /// The segments of the path of a commit's trees.
    pub fn tree_pack_path(&self, commit_oid: &str) -> (path: Vec<String>)
        ensures
            segments(path@) == self@.base + seq!["trees"@, commit_oid@ + ".pack"@],
    {
        let mut path = self.base();
        let ghost base = path@;
        path.push("trees".to_string());
        let mut name = text::chars_of(commit_oid);
        text::push_str(&mut name, ".pack");
        path.push(text::from_chars(name));
        assert(segments(path@) =~= segments(base) + seq!["trees"@, commit_oid@ + ".pack"@]);
        path
    }

    /// Whether a blob is known to be on disk.
    pub fn has_blob(&self, oid: &str) -> (r: bool)
        ensures
            r == self@.sizes.contains_key(oid@),
    {
        self.sizes.contains_key(oid)
    }

    /// The size of a blob that is known to be on disk.
    pub fn get_blob_size(&self, oid: &str) -> (r: Option<u64>)
        requires
            self.wf(),
        ensures
            r == (if self@.sizes.contains_key(oid@) {
                Some(self@.sizes[oid@])
            } else {
                None
            }),
    {
        match self.sizes.get(oid) {
            Some(n) => Some(*n),
            None => None,
        }
    }

    /// Notes that a blob of a size is on disk.
    pub fn put_blob(&mut self, oid: &str, size: u64)
        requires
            old(self).wf(),
        ensures
            final(self).wf(),
            final(self)@ == (DiskView {
                sizes: old(self)@.sizes.insert(oid@, size),
                ..old(self)@
            }),
    {
        self.sizes.insert(oid.to_string(), size);
    }

    /// Takes what was read from a blob's file, and counts whether it was there.
    pub fn get_blob(&mut self, oid: &str, read: Option<Vec<u8>>) -> (r: Option<Vec<u8>>)
        requires
            old(self).wf(),
        ensures
            final(self).wf(),
            r == read,
            final(self)@ == (match read {
                Some(data) => DiskView {
                    sizes: old(self)@.sizes.insert(oid@, data@.len() as u64),
                    hits: memory::counted(old(self)@.hits),
                    ..old(self)@
                },
                None => DiskView { misses: memory::counted(old(self)@.misses), ..old(self)@ },
            }),
    {
        match &read {
            Some(data) => {
                self.hits = memory::count(self.hits);
                self.sizes.insert(oid.to_string(), data.len() as u64);
            },
            None => {
                self.misses = memory::count(self.misses);
            },
        }
        read
    }

    pub fn hits(&self) -> (n: u64)
        ensures
            n == self@.hits,
    {
        self.hits
    }

    pub fn misses(&self) -> (n: u64)
        ensures
            n == self@.misses,
    {
        self.misses
    }
}

} // verus!
