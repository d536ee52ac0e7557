//! Where logs are kept: their names, and what is written once a log is done with.

use vstd::prelude::*;

use crate::bytes;
use crate::sorting;
use crate::text;

verus! {

/// The name of a file of a log: below a prefix, by the log's number.
pub open spec fn file_name(prefix: Seq<char>, seq: u64, suffix: Seq<char>) -> Seq<char> {
    prefix + text::numeral(seq as nat, 10) + suffix
}

/// The number of the log that a file below a prefix holds, where it holds one.
pub open spec fn log_seq(prefix: Seq<char>, name: Seq<char>) -> Option<nat> {
    let short = if text::starts_with(name, prefix) {
        name.skip(prefix.len() as int)
    } else {
        name
    };
    if text::ends_with(short, ".log"@) {
        text::parsed(short.take(short.len() - ".log"@.len()), 10, u64::MAX as nat)
    } else {
        None
    }
}

/// The numbers of the logs among files.
pub open spec fn log_seqs(prefix: Seq<char>, names: Seq<Seq<char>>) -> Seq<u64>
    decreases names.len(),
{
    if names.len() == 0 {
        Seq::empty()
    } else {
        let before = log_seqs(prefix, names.drop_last());
        match log_seq(prefix, names.last()) {
            Some(n) => before.push(n as u64),
            None => before,
        }
    }
}

/// A file to be written.
#[derive(Debug)]
pub struct StoredFile {
    pub name: String,
    pub data: Vec<u8>,
}

impl View for StoredFile {
    type V = (Seq<char>, Seq<u8>);

    open spec fn view(&self) -> (Seq<char>, Seq<u8>) {
        (self.name@, self.data@)
    }
}

/// The views of files.
pub open spec fn file_views(files: Seq<StoredFile>) -> Seq<(Seq<char>, Seq<u8>)> {
    files.map_values(|f: StoredFile| f@)
}

/// What a file that names a commit holds.
pub open spec fn commit_line(commit_oid: Seq<char>) -> Seq<u8> {
    vstd::utf8::encode_utf8(commit_oid + "\n"@)
}

/// Puts a commit into a file that names it.
pub fn commit_line_of(commit_oid: &str) -> (data: Vec<u8>)
    ensures
        data@ == commit_line(commit_oid@),
{
    let mut line = text::chars_of(commit_oid);
    text::push_str(&mut line, "\n");
    text::bytes_of(text::from_chars(line).as_str())
}

/// The files that mark a log as done: the marker, and the packfile and index, where there are.
pub open spec fn done_files(
    prefix: Seq<char>,
    seq: u64,
    commit_oid: Seq<char>,
    pack: Option<Seq<u8>>,
    idx: Option<Seq<u8>>,
) -> Seq<(Seq<char>, Seq<u8>)> {
    let marker = seq![(file_name(prefix, seq, ".done"@), commit_line(commit_oid))];
    let packed = match pack {
        Some(data) => marker.push((file_name(prefix, seq, ".pack"@), data)),
        None => marker,
    };
    match idx {
        Some(data) => packed.push((file_name(prefix, seq, ".idx"@), data)),
        None => packed,
    }
}

/// The names of the files of logs, below a prefix.
pub struct LogNames {
    prefix: String,
}

impl View for LogNames {
    type V = Seq<char>;

    closed spec fn view(&self) -> Seq<char> {
        self.prefix@
    }
}

impl LogNames {
    pub fn new(prefix: &str) -> (names: Self)
        ensures
            names@ == prefix@,
    {
        LogNames { prefix: prefix.to_string() }
    }

    pub fn prefix(&self) -> (prefix: &str)
        ensures
            prefix@ == self@,
    {
        self.prefix.as_str()
    }

    fn name(&self, seq: u64, suffix: &str) -> (name: String)
        ensures
            name@ == file_name(self@, seq, suffix@),
    {
        let mut name = text::chars_of(self.prefix.as_str());
        text::push_numeral(&mut name, seq, 10);
        text::push_str(&mut name, suffix);
        text::from_chars(name)
    }

    pub fn log_name(&self, seq: u64) -> (name: String)
        ensures
            name@ == file_name(self@, seq, ".log"@),
    {
        self.name(seq, ".log")
    }

    pub fn done_name(&self, seq: u64) -> (name: String)
        ensures
            name@ == file_name(self@, seq, ".done"@),
    {
        self.name(seq, ".done")
    }

    pub fn pack_name(&self, seq: u64) -> (name: String)
        ensures
            name@ == file_name(self@, seq, ".pack"@),
    {
        self.name(seq, ".pack")
    }

    pub fn idx_name(&self, seq: u64) -> (name: String)
        ensures
            name@ == file_name(self@, seq, ".idx"@),
    {
        self.name(seq, ".idx")
    }

    /// The number of the log that a file holds, where it holds one.
    pub fn log_sequence(&self, name: &str) -> (r: Option<u64>)
        ensures
            match r {
                Some(n) => log_seq(self@, name@) == Some(n as nat),
                None => log_seq(self@, name@) is None,
            },
    {
        let chars = text::chars_of(name);
        let short = match text::strip_prefix(chars.as_slice(), self.prefix.as_str()) {
            Some(rest) => rest,
            None => chars,
        };
        match text::strip_suffix(short.as_slice(), ".log") {
            Some(digits) => text::parse_number(digits.as_slice(), 10, u64::MAX),
            None => None,
        }
    }

    /// The numbers of the logs among files, in ascending order.
    pub fn list_log_sequences(&self, names: &Vec<String>) -> (seqs: Vec<u64>)
        ensures
            seqs@.to_multiset() == log_seqs(
                self@,
                crate::git::protocol::texts(names@),
            ).to_multiset(),
            forall|i: int, j: int| 0 <= i <= j < seqs@.len() ==> seqs@[i] <= seqs@[j],
    {
        let ghost all = crate::git::protocol::texts(names@);
        let mut seqs: Vec<u64> = Vec::new();
        let mut i: usize = 0;
        assert(all.take(0) =~= Seq::<Seq<char>>::empty());
        while i < names.len()
            invariant
                i <= names@.len(),
                all == crate::git::protocol::texts(names@),
                seqs@ == log_seqs(self@, all.take(i as int)),
            decreases names@.len() - i,
        {
            assert(all.take(i as int + 1).drop_last() =~= all.take(i as int));
            assert(all.take(i as int + 1).last() == names@[i as int]@);
            match self.log_sequence(names[i].as_str()) {
                Some(n) => {
                    seqs.push(n);
                },
                None => {},
            }
            i += 1;
        }
        assert(all.take(i as int) =~= all);
        sorting::sort_numbers(&mut seqs);
        seqs
    }

    /// The files that mark a log as done with a commit, in the order in which they are written.
    pub fn mark_log_done(
        &self,
        seq: u64,
        new_commit_oid: &str,
        pack_data: Option<&[u8]>,
        idx_data: Option<&[u8]>,
    ) -> (files: Vec<StoredFile>)
        ensures
            file_views(files@) == done_files(
                self@,
                seq,
                new_commit_oid@,
                crate::staging::maybe(pack_data),
                crate::staging::maybe(idx_data),
            ),
    {
        let mut files: Vec<StoredFile> = Vec::new();
        files.push(
            StoredFile { name: self.done_name(seq), data: commit_line_of(new_commit_oid) },
        );
        match pack_data {
            Some(data) => {
                files.push(StoredFile { name: self.pack_name(seq), data: bytes::copy(data) });
            },
            None => {},
        }
        match idx_data {
            Some(data) => {
                files.push(StoredFile { name: self.idx_name(seq), data: bytes::copy(data) });
            },
            None => {},
        }
        assert(file_views(files@) =~= done_files(
            self@,
            seq,
            new_commit_oid@,
            crate::staging::maybe(pack_data),
            crate::staging::maybe(idx_data),
        ));
        files
    }
}

/// Logs in a directory of this machine.
pub struct LocalWalBackend {
    dir: String,
    names: LogNames,
}

impl LocalWalBackend {
    pub closed spec fn dir_view(&self) -> Seq<char> {
        self.dir@
    }

    pub closed spec fn names_view(&self) -> Seq<char> {
        self.names@
    }

    pub fn new(dir: &str) -> (backend: Self)
        ensures
            backend.dir_view() == dir@,
            backend.names_view() == Seq::<char>::empty(),
    {
        let names = LogNames::new("");
        proof {
            reveal_strlit("");
        }
        assert(names@ =~= Seq::<char>::empty());
        LocalWalBackend { dir: dir.to_string(), names }
    }

    pub fn dir(&self) -> (dir: &str)
        ensures
            dir@ == self.dir_view(),
    {
        self.dir.as_str()
    }

    /// The names of the files, within the directory.
    pub fn names(&self) -> (names: &LogNames)
        ensures
            names@ == self.names_view(),
    {
        &self.names
    }
}

/// The bucket's resource name.
pub open spec fn bucket_name(bucket: Seq<char>) -> Seq<char> {
    if text::starts_with(bucket, "projects/"@) {
        bucket
    } else {
        "projects/_/buckets/"@ + bucket
    }
}

/// The resource name of a bucket.
pub fn bucket_name_of(bucket: &str) -> (name: String)
    ensures
        name@ == bucket_name(bucket@),
{
    let chars = text::chars_of(bucket);
    if text::has_prefix(chars.as_slice(), "projects/") {
        bucket.to_string()
    } else {
        let mut name = text::chars_of("projects/_/buckets/");
        text::push_str(&mut name, bucket);
        text::from_chars(name)
    }
}

/// A prefix without the slashes before it.
pub fn clean_prefix(prefix: &str) -> (clean: String)
    ensures
        clean@ == text::trimmed_start(prefix@, |c: char| c == '/'),
{
    let chars = text::chars_of(prefix);
    text::from_chars(text::trim_slashes_start(chars.as_slice()))
}

/// Logs in a bucket, below a prefix.
pub struct GcsRapidWalBackend {
    bucket: String,
    names: LogNames,
}

impl GcsRapidWalBackend {
    pub closed spec fn bucket_view(&self) -> Seq<char> {
        self.bucket@
    }

    pub closed spec fn names_view(&self) -> Seq<char> {
        self.names@
    }

    pub fn new(bucket: &str, prefix: &str) -> (backend: Self)
        ensures
            backend.bucket_view() == bucket_name(bucket@),
            backend.names_view() == text::trimmed_start(prefix@, |c: char| c == '/'),
    {
        GcsRapidWalBackend {
            bucket: bucket_name_of(bucket),
            names: LogNames::new(clean_prefix(prefix).as_str()),
        }
    }

    /// The bucket's resource name.
    pub fn bucket(&self) -> (bucket: &str)
        ensures
            bucket@ == self.bucket_view(),
    {
        self.bucket.as_str()
    }

    pub fn names(&self) -> (names: &LogNames)
        ensures
            names@ == self.names_view(),
    {
        &self.names
    }
}

// ---------------------------------------------------------------------------------------------
// What holds of the names

/// A log is found by its name, under its number.
pub proof fn lemma_log_found(prefix: Seq<char>, seq: u64)
    ensures
        log_seq(prefix, file_name(prefix, seq, ".log"@)) == Some(seq as nat),
{
    let digits = text::numeral(seq as nat, 10);
    let name = file_name(prefix, seq, ".log"@);
    let short = digits + ".log"@;
    assert(name.take(prefix.len() as int) =~= prefix);
    assert(name.skip(prefix.len() as int) =~= short);
    assert(short.skip(short.len() - ".log"@.len()) =~= ".log"@);
    assert(short.take(short.len() - ".log"@.len()) =~= digits);
    text::lemma_numeral_parsed(seq as nat, 10, u64::MAX as nat);
}

/// The other files of a log are not taken for logs.
pub proof fn lemma_others_passed_over(prefix: Seq<char>, seq: u64, suffix: Seq<char>)
    requires
        suffix == ".done"@ || suffix == ".pack"@ || suffix == ".idx"@,
    ensures
        log_seq(prefix, file_name(prefix, seq, suffix)) is None,
{
    reveal_strlit(".log");
    reveal_strlit(".done");
    reveal_strlit(".pack");
    reveal_strlit(".idx");
    let name = file_name(prefix, seq, suffix);
    let short = text::numeral(seq as nat, 10) + suffix;
    assert(name.take(prefix.len() as int) =~= prefix);
    assert(name.skip(prefix.len() as int) =~= short);
    assert(short.last() == suffix.last());
    if text::ends_with(short, ".log"@) {
        assert(short.skip(short.len() - 4).last() == short.last());
        assert(".log"@.last() == 'g');
    }
}

} // verus!
