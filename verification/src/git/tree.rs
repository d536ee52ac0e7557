//! Tree objects: the entries of a directory.

use vstd::prelude::*;
use vstd::slice::slice_subrange;

use crate::bytes;
use crate::git::hash;
use crate::text;

verus! {

#[derive(Debug, Clone, Copy, PartialEq, Eq, Structural)]
pub enum TreeEntryMode {
    RegularFile,
    ExecutableFile,
    Directory,
    Symlink,
    Submodule,
    Other(u32),
}

/// Why a tree was refused.
#[derive(Debug, Clone, Copy, PartialEq, Eq, Structural)]
pub enum TreeError {
    /// No space behind the mode.
    NoSpace,
    /// The mode is not UTF-8.
    ModeUtf8,
    /// No null byte behind the name.
    NoNull,
    /// The name is not UTF-8.
    NameUtf8,
    /// The data ends within the name of the object.
    Truncated,
}

impl TreeEntryMode {
    /// The mode that a text stands for: one of the known ones, or an octal number; a regular
    /// file's where it is neither.
    pub open spec fn of_text(s: Seq<char>) -> TreeEntryMode {
        if s == "100644"@ {
            TreeEntryMode::RegularFile
        } else if s == "100755"@ {
            TreeEntryMode::ExecutableFile
        } else if s == "40000"@ || s == "040000"@ {
            TreeEntryMode::Directory
        } else if s == "120000"@ {
            TreeEntryMode::Symlink
        } else if s == "160000"@ {
            TreeEntryMode::Submodule
        } else {
            match text::parsed(s, 8, u32::MAX as nat) {
                Some(m) => TreeEntryMode::Other(m as u32),
                None => TreeEntryMode::Other(0o100644),
            }
        }
    }

    /// The text that stands for a mode in a tree.
    pub open spec fn text(self) -> Seq<char> {
        match self {
            TreeEntryMode::RegularFile => "100644"@,
            TreeEntryMode::ExecutableFile => "100755"@,
            TreeEntryMode::Directory => "40000"@,
            TreeEntryMode::Symlink => "120000"@,
            TreeEntryMode::Submodule => "160000"@,
            TreeEntryMode::Other(m) => text::numeral(m as nat, 8),
        }
    }

    /// The mode bits of a file.
    pub open spec fn posix(self) -> u32 {
        match self {
            TreeEntryMode::RegularFile => 0o100644,
            TreeEntryMode::ExecutableFile => 0o100755,
            TreeEntryMode::Directory => 0o040755,
            TreeEntryMode::Symlink => 0o120777,
            TreeEntryMode::Submodule => 0o040755,
            TreeEntryMode::Other(m) => m,
        }
    }

    pub fn from_mode_str(s: &str) -> (mode: Self)
        ensures
            mode == TreeEntryMode::of_text(s@),
    {
        if text::equal(s, "100644") {
            TreeEntryMode::RegularFile
        } else if text::equal(s, "100755") {
            TreeEntryMode::ExecutableFile
        } else if text::equal(s, "40000") || text::equal(s, "040000") {
            TreeEntryMode::Directory
        } else if text::equal(s, "120000") {
            TreeEntryMode::Symlink
        } else if text::equal(s, "160000") {
            TreeEntryMode::Submodule
        } else {
            let chars = text::chars_of(s);
            match text::parse_number(&chars, 8, u32::MAX as u64) {
                Some(m) => TreeEntryMode::Other(m as u32),
                None => TreeEntryMode::Other(0o100644),
            }
        }
    }

    /// The text of the mode, as a tree holds it.
    pub fn mode_str(&self) -> (s: String)
        ensures
            s@ == self.text(),
    {
        match self {
            TreeEntryMode::RegularFile => "100644".to_string(),
            TreeEntryMode::ExecutableFile => "100755".to_string(),
            TreeEntryMode::Directory => "40000".to_string(),
            TreeEntryMode::Symlink => "120000".to_string(),
            TreeEntryMode::Submodule => "160000".to_string(),
            TreeEntryMode::Other(m) => text::numeral_of(*m as u64, 8),
        }
    }

    pub fn is_dir(&self) -> (r: bool)
        ensures
            r == (*self == TreeEntryMode::Directory),
    {
        matches!(self, TreeEntryMode::Directory)
    }

    pub fn is_symlink(&self) -> (r: bool)
        ensures
            r == (*self == TreeEntryMode::Symlink),
    {
        matches!(self, TreeEntryMode::Symlink)
    }

    pub fn posix_mode(&self) -> (bits: u32)
        ensures
            bits == self.posix(),
    {
        match self {
            TreeEntryMode::RegularFile => 0o100644,
            TreeEntryMode::ExecutableFile => 0o100755,
            TreeEntryMode::Directory => 0o040755,
            TreeEntryMode::Symlink => 0o120777,
            TreeEntryMode::Submodule => 0o040755,
            TreeEntryMode::Other(m) => *m,
        }
    }
}

/// An entry of a directory.
#[verifier::ext_equal]
pub struct TreeItem {
    pub mode: TreeEntryMode,
    pub name: Seq<char>,
    pub oid: Seq<char>,
}

#[derive(Debug)]
pub struct GitTreeEntry {
    pub mode: TreeEntryMode,
    pub name: String,
    pub oid: String,
}

impl View for GitTreeEntry {
    type V = TreeItem;

    open spec fn view(&self) -> TreeItem {
        TreeItem { mode: self.mode, name: self.name@, oid: self.oid@ }
    }
}

impl Clone for GitTreeEntry {
    fn clone(&self) -> (copy: Self)
        ensures
            copy@ == self@,
    {
        GitTreeEntry { mode: self.mode, name: self.name.clone(), oid: self.oid.clone() }
    }
}

#[derive(Debug)]
pub struct GitTree {
    pub entries: Vec<GitTreeEntry>,
}

impl View for GitTree {
    type V = Seq<TreeItem>;

    open spec fn view(&self) -> Seq<TreeItem> {
        self.entries@.map_values(|e: GitTreeEntry| e@)
    }
}

impl Default for GitTree {
    fn default() -> (tree: Self)
        ensures
            tree@ == Seq::<TreeItem>::empty(),
    {
        let tree = GitTree { entries: Vec::new() };
        assert(tree@ =~= Seq::<TreeItem>::empty());
        tree
    }
}

impl Clone for GitTree {
    fn clone(&self) -> (copy: Self)
        ensures
            copy@ == self@,
    {
        let mut entries: Vec<GitTreeEntry> = Vec::new();
        let mut i: usize = 0;
        while i < self.entries.len()
            invariant
                i <= self.entries@.len(),
                entries@.len() == i,
                forall|j: int| 0 <= j < i ==> (#[trigger] entries@[j])@ == self.entries@[j]@,
            decreases self.entries@.len() - i,
        {
            entries.push(self.entries[i].clone());
            i += 1;
        }
        let copy = GitTree { entries };
        assert(copy@ =~= self@);
        copy
    }
}

/// The first place from `from` on where a byte stands.
pub open spec fn find_byte(data: Seq<u8>, byte: u8, from: int) -> Option<int>
    decreases data.len() - from,
{
    if from >= data.len() {
        None
    } else if data[from] == byte {
        Some(from)
    } else {
        find_byte(data, byte, from + 1)
    }
}

/// The entry at `pos`, and where it ends: the mode, a space, the name, a null byte and the
/// twenty bytes of the object's name.
pub open spec fn item_at(data: Seq<u8>, pos: int) -> Result<(TreeItem, int), TreeError> {
    match find_byte(data, 32, pos) {
        None => Err(TreeError::NoSpace),
        Some(space) => if !vstd::utf8::valid_utf8(data.subrange(pos, space)) {
            Err(TreeError::ModeUtf8)
        } else {
            match find_byte(data, 0, space + 1) {
                None => Err(TreeError::NoNull),
                Some(null) => if !vstd::utf8::valid_utf8(data.subrange(space + 1, null)) {
                    Err(TreeError::NameUtf8)
                } else if null + 1 + 20 > data.len() {
                    Err(TreeError::Truncated)
                } else {
                    Ok(
                        (
                            TreeItem {
                                mode: TreeEntryMode::of_text(
                                    vstd::utf8::decode_utf8(data.subrange(pos, space)),
                                ),
                                name: vstd::utf8::decode_utf8(data.subrange(space + 1, null)),
                                oid: hash::hex_encoded(data.subrange(null + 1, null + 21)),
                            },
                            null + 21,
                        ),
                    )
                },
            }
        },
    }
}

/// A found byte lies where it was looked for.
pub proof fn lemma_find_byte(data: Seq<u8>, byte: u8, from: int)
    ensures
        find_byte(data, byte, from) matches Some(at) ==> from <= at < data.len() && data[at]
            == byte,
    decreases data.len() - from,
{
    if from < data.len() && data[from] != byte {
        lemma_find_byte(data, byte, from + 1);
    }
}

/// The entries from `pos` on.
pub open spec fn tree_from(data: Seq<u8>, pos: int) -> Result<Seq<TreeItem>, TreeError>
    decreases data.len() - pos,
{
    if pos >= data.len() {
        Ok(Seq::empty())
    } else {
        match item_at(data, pos) {
            Err(e) => Err(e),
            Ok((item, next)) => {
                proof {
                    lemma_find_byte(data, 32, pos);
                    lemma_find_byte(data, 0, find_byte(data, 32, pos)->0 + 1);
                }
                match tree_from(data, next) {
                    Err(e) => Err(e),
                    Ok(rest) => Ok(seq![item] + rest),
                }
            },
        }
    }
}

fn find(data: &[u8], byte: u8, from: usize) -> (r: Option<usize>)
    ensures
        match r {
            Some(at) => find_byte(data@, byte, from as int) == Some(at as int) && from <= at
                < data@.len(),
            None => find_byte(data@, byte, from as int) is None,
        },
{
    let mut i: usize = from;
    while i < data.len()
        invariant
            from <= i,
            find_byte(data@, byte, from as int) == find_byte(data@, byte, i as int),
        decreases data@.len() - i,
    {
        if data[i] == byte {
            return Some(i);
        }
        i += 1;
    }
    None
}

fn read_item(data: &[u8], pos: usize) -> (r: Result<(GitTreeEntry, usize), TreeError>)
    requires
        pos <= data@.len(),
    ensures
        match r {
            Ok((entry, end)) => item_at(data@, pos as int) == Ok::<_, TreeError>(
                (entry@, end as int),
            ) && pos < end <= data@.len(),
            Err(e) => item_at(data@, pos as int) == Err::<(TreeItem, int), _>(e),
        },
{
    let len: usize = data.len();
    let space: usize = match find(data, 32, pos) {
        Some(at) => at,
        None => {
            return Err(TreeError::NoSpace);
        },
    };
    let mode = match text::from_utf8(bytes::copy_range(data, pos, space)) {
        Some(s) => TreeEntryMode::from_mode_str(s.as_str()),
        None => {
            return Err(TreeError::ModeUtf8);
        },
    };
    let null: usize = match find(data, 0, space + 1) {
        Some(at) => at,
        None => {
            return Err(TreeError::NoNull);
        },
    };
    let name = match text::from_utf8(bytes::copy_range(data, space + 1, null)) {
        Some(s) => s,
        None => {
            return Err(TreeError::NameUtf8);
        },
    };
    if len - (null + 1) < 20 {
        return Err(TreeError::Truncated);
    }
    let oid = hash::hex_encode(slice_subrange(data, null + 1, null + 21));
    Ok((GitTreeEntry { mode, name, oid }, null + 21))
}

impl GitTree {
    pub fn parse(data: &[u8]) -> (r: Result<Self, TreeError>)
        ensures
            match r {
                Ok(tree) => tree_from(data@, 0) == Ok::<_, TreeError>(tree@),
                Err(e) => tree_from(data@, 0) == Err::<Seq<TreeItem>, _>(e),
            },
    {
        let mut entries: Vec<GitTreeEntry> = Vec::new();
        let mut pos: usize = 0;
        let ghost mut items: Seq<TreeItem> = Seq::empty();
        assert(forall|rest: Seq<TreeItem>| #[trigger] (items + rest) =~= rest);
        while pos < data.len()
            invariant
                pos <= data@.len(),
                items == entries@.map_values(|e: GitTreeEntry| e@),
                tree_from(data@, 0) == (match tree_from(data@, pos as int) {
                    Ok(rest) => Ok(items + rest),
                    Err(e) => Err(e),
                }),
            decreases data@.len() - pos,
        {
            match read_item(data, pos) {
                Err(e) => {
                    return Err(e);
                },
                Ok((entry, next)) => {
                    let ghost item = entry@;
                    entries.push(entry);
                    pos = next;
                    proof {
                        assert forall|rest: Seq<TreeItem>| #[trigger]
                            (items.push(item) + rest) == items + (seq![item] + rest) by {
                            assert(items.push(item) + rest =~= items + (seq![item] + rest));
                        }
                        items = items.push(item);
                        assert(items =~= entries@.map_values(|e: GitTreeEntry| e@));
                    }
                },
            }
        }
        let tree = GitTree { entries };
        assert(items + Seq::<TreeItem>::empty() =~= items);
        Ok(tree)
    }

    /// The first entry with a name.
    pub fn find(&self, name: &str) -> (r: Option<&GitTreeEntry>)
        ensures
            match r {
                Some(e) => exists|i: int|
                    0 <= i < self@.len() && #[trigger] self@[i] == e@ && e@.name == name@ && forall|
                        j: int,
                    |
                        0 <= j < i ==> (#[trigger] self@[j]).name != name@,
                None => forall|j: int| 0 <= j < self@.len() ==> (#[trigger] self@[j]).name != name@,
            },
    {
        let mut i: usize = 0;
        while i < self.entries.len()
            invariant
                i <= self.entries@.len(),
                forall|j: int| 0 <= j < i ==> (#[trigger] self@[j]).name != name@,
            decreases self.entries@.len() - i,
        {
            assert(self@[i as int] == self.entries@[i as int]@);
            if text::equal(self.entries[i].name.as_str(), name) {
                return Some(&self.entries[i]);
            }
            i += 1;
        }
        None
    }
}

// ---------------------------------------------------------------------------------------------
// Writing trees

/// The bytes of an entry before the object's name.
pub open spec fn item_prefix(item: TreeItem) -> Seq<u8> {
    vstd::utf8::encode_utf8(item.mode.text() + seq![' '] + item.name + seq!['\0'])
}

/// The bytes of a tree; none where the name of an object is not in hexadecimal.
pub open spec fn tree_bytes(items: Seq<TreeItem>) -> Option<Seq<u8>>
    decreases items.len(),
{
    if items.len() == 0 {
        Some(Seq::empty())
    } else {
        let last = items.last();
        match (tree_bytes(items.drop_last()), hash::hex_decoded(last.oid)) {
            (Some(before), Some(sha)) => Some(before + item_prefix(last) + sha),
            _ => None,
        }
    }
}

/// Whether a mode is the one that its text stands for: every mode but a number in place of one
/// that has a name.
pub open spec fn is_plain_mode(mode: TreeEntryMode) -> bool {
    mode matches TreeEntryMode::Other(m) ==> m != 0o100644 && m != 0o100755 && m != 0o40000 && m
        != 0o120000 && m != 0o160000
}

/// Whether an entry can be read back from a tree: a name without null bytes, and an object's
/// name of forty lower-case digits.
pub open spec fn is_plain_item(item: TreeItem) -> bool {
    &&& is_plain_mode(item.mode)
    &&& forall|i: int| 0 <= i < item.name.len() ==> #[trigger] item.name[i] != '\0'
    &&& item.oid.len() == 40
    &&& hash::is_lower_hex(item.oid)
}

proof fn lemma_octal(n: nat)
    ensures
        n < 8 ==> text::numeral(n, 8) == seq![text::digit(n as int)],
        n >= 8 ==> text::numeral(n, 8) == text::numeral(n / 8, 8).push(
            text::digit((n % 8) as int),
        ),
{
}

proof fn lemma_numeral_ascii(n: nat)
    ensures
        forall|i: int|
            0 <= i < text::numeral(n, 8).len() ==> '0' <= #[trigger] text::numeral(n, 8)[i]
                <= '7',
    decreases n,
{
    lemma_octal(n);
    if n >= 8 {
        lemma_numeral_ascii(n / 8);
    }
}

proof fn lemma_mode_text(mode: TreeEntryMode)
    requires
        is_plain_mode(mode),
    ensures
        TreeEntryMode::of_text(mode.text()) == mode,
        forall|i: int|
            0 <= i < mode.text().len() ==> '0' <= #[trigger] mode.text()[i] <= '7',
{
    reveal_strlit("100644");
    reveal_strlit("100755");
    reveal_strlit("40000");
    reveal_strlit("040000");
    reveal_strlit("120000");
    reveal_strlit("160000");
    match mode {
        TreeEntryMode::ExecutableFile => {
            assert("100755"@[3] != "100644"@[3]);
        },
        TreeEntryMode::Directory => {},
        TreeEntryMode::Symlink => {
            assert("120000"@[1] != "100644"@[1]);
            assert("120000"@[1] != "100755"@[1]);
            assert("120000"@[0] != "040000"@[0]);
        },
        TreeEntryMode::Submodule => {
            assert("160000"@[1] != "100644"@[1]);
            assert("160000"@[1] != "100755"@[1]);
            assert("160000"@[1] != "120000"@[1]);
            assert("160000"@[0] != "040000"@[0]);
        },
        TreeEntryMode::Other(m) => {
            let s = text::numeral(m as nat, 8);
            lemma_numeral_ascii(m as nat);
            text::lemma_numeral_parsed(m as nat, 8, u32::MAX as nat);
            lemma_known_octal("100644"@, m);
            lemma_known_octal("100755"@, m);
            lemma_known_octal("40000"@, m);
            lemma_known_octal("040000"@, m);
            lemma_known_octal("120000"@, m);
            lemma_known_octal("160000"@, m);
        },
        _ => {},
    }
}

/// A number whose numeral is one of the known modes is that mode's number.
proof fn lemma_known_octal(s: Seq<char>, m: u32)
    requires
        s == "100644"@ || s == "100755"@ || s == "40000"@ || s == "040000"@ || s == "120000"@
            || s == "160000"@,
    ensures
        s == text::numeral(m as nat, 8) ==> m == 0o100644 || m == 0o100755 || m == 0o40000 || m
            == 0o120000 || m == 0o160000,
{
    reveal_strlit("100644");
    reveal_strlit("100755");
    reveal_strlit("40000");
    reveal_strlit("040000");
    reveal_strlit("120000");
    reveal_strlit("160000");
    text::lemma_numeral_parsed(m as nat, 8, u32::MAX as nat);
    reveal_with_fuel(text::digits_value, 8);
}

proof fn lemma_find_at(data: Seq<u8>, byte: u8, from: int, at: int)
    requires
        0 <= from <= at < data.len(),
        data[at] == byte,
        forall|i: int| from <= i < at ==> #[trigger] data[i] != byte,
    ensures
        find_byte(data, byte, from) == Some(at),
    decreases at - from,
{
    if from < at {
        assert(data[from] != byte);
        lemma_find_at(data, byte, from + 1, at);
    }
}

/// The bytes of an entry before the object's name, part by part.
proof fn lemma_item_prefix(item: TreeItem)
    requires
        is_plain_item(item),
    ensures
        ({
            let mode = vstd::utf8::encode_utf8(item.mode.text());
            let name = vstd::utf8::encode_utf8(item.name);
            &&& item_prefix(item) == mode + seq![32u8] + name + seq![0u8]
            &&& forall|i: int| 0 <= i < mode.len() ==> #[trigger] mode[i] != 32
            &&& forall|i: int| 0 <= i < name.len() ==> #[trigger] name[i] != 0
        }),
{
    lemma_mode_text(item.mode);
    let m = item.mode.text();
    text::lemma_encode_concat(m + seq![' '] + item.name, seq!['\0']);
    text::lemma_encode_concat(m + seq![' '], item.name);
    text::lemma_encode_concat(m, seq![' ']);
    let space = vstd::utf8::encode_utf8(seq![' ']);
    let null = vstd::utf8::encode_utf8(seq!['\0']);
    assert(vstd::utf8::is_ascii_chars(seq![' ']));
    assert(vstd::utf8::is_ascii_chars(seq!['\0']));
    vstd::utf8::is_ascii_chars_encode_utf8(seq![' ']);
    vstd::utf8::is_ascii_chars_encode_utf8(seq!['\0']);
    assert(seq![' '][0] as u8 == 32u8);
    assert(seq!['\0'][0] as u8 == 0u8);
    assert(space =~= seq![32u8]);
    assert(null =~= seq![0u8]);
    text::lemma_encode_avoids(m, 32);
    text::lemma_encode_avoids(item.name, 0);
}

/// Where the parts of an entry lie.
pub proof fn lemma_item_parts(
    data: Seq<u8>,
    pos: int,
    mode: Seq<u8>,
    name: Seq<u8>,
    sha: Seq<u8>,
)
    requires
        0 <= pos,
        pos + mode.len() + 1 + name.len() + 1 + sha.len() <= data.len(),
        data.subrange(pos, pos + mode.len() + 1 + name.len() + 1 + sha.len()) == mode
            + seq![32u8] + name + seq![0u8] + sha,
        forall|i: int| 0 <= i < mode.len() ==> #[trigger] mode[i] != 32,
        forall|i: int| 0 <= i < name.len() ==> #[trigger] name[i] != 0,
    ensures
        ({
            let at_space = pos + mode.len();
            let at_null = at_space + 1 + name.len();
            &&& find_byte(data, 32, pos) == Some(at_space)
            &&& find_byte(data, 0, at_space + 1) == Some(at_null)
            &&& data.subrange(pos, at_space) == mode
            &&& data.subrange(at_space + 1, at_null) == name
            &&& data.subrange(at_null + 1, at_null + 1 + sha.len()) == sha
        }),
{
    let m = mode.len() as int;
    let n = name.len() as int;
    let written = mode + seq![32u8] + name + seq![0u8] + sha;
    let part = data.subrange(pos, pos + written.len());
    let at_space = pos + m;
    let at_null = at_space + 1 + n;
    assert(data.subrange(pos, at_space) =~= part.subrange(0, m));
    assert(part.subrange(0, m) =~= mode);
    assert(data.subrange(at_space + 1, at_null) =~= part.subrange(m + 1, m + 1 + n));
    assert(part.subrange(m + 1, m + 1 + n) =~= name);
    assert(data.subrange(at_null + 1, at_null + 1 + sha.len()) =~= part.subrange(
        m + n + 2,
        m + n + 2 + sha.len(),
    ));
    assert(part.subrange(m + n + 2, m + n + 2 + sha.len()) =~= sha);
    assert(part[m] == 32 && part[m + 1 + n] == 0);
    assert forall|i: int| pos <= i < at_space implies #[trigger] data[i] != 32 by {
        assert(data.subrange(pos, at_space)[i - pos] == mode[i - pos]);
    }
    assert forall|i: int| at_space + 1 <= i < at_null implies #[trigger] data[i] != 0 by {
        assert(data.subrange(at_space + 1, at_null)[i - at_space - 1] == name[i - at_space - 1]);
    }
    lemma_find_at(data, 32, pos, at_space);
    lemma_find_at(data, 0, at_space + 1, at_null);
}

/// An entry that was written is read back.
proof fn lemma_item_read(data: Seq<u8>, pos: int, item: TreeItem)
    requires
        is_plain_item(item),
        0 <= pos,
        ({
            let written = item_prefix(item) + hash::hex_decoded(item.oid)->0;
            pos + written.len() <= data.len() && data.subrange(pos, pos + written.len())
                == written
        }),
    ensures
        item_at(data, pos) == Ok::<_, TreeError>(
            (item, pos + item_prefix(item).len() + hash::hex_decoded(item.oid)->0.len()),
        ),
{
    let sha = hash::hex_decoded(item.oid)->0;
    hash::lemma_hex_text(item.oid);
    lemma_item_prefix(item);
    lemma_mode_text(item.mode);
    let mode = vstd::utf8::encode_utf8(item.mode.text());
    let name = vstd::utf8::encode_utf8(item.name);
    lemma_item_parts(data, pos, mode, name, sha);
    vstd::utf8::encode_utf8_decode_utf8(item.mode.text());
    vstd::utf8::encode_utf8_decode_utf8(item.name);
    vstd::utf8::encode_utf8_valid_utf8(item.mode.text());
    vstd::utf8::encode_utf8_valid_utf8(item.name);
}

proof fn lemma_tree_prefix(items: Seq<TreeItem>, n: int)
    requires
        0 <= n <= items.len(),
        tree_bytes(items) is Some,
    ensures
        tree_bytes(items.take(n)) matches Some(part) && part.len() <= tree_bytes(items)->0.len()
            && part == tree_bytes(items)->0.take(part.len() as int),
    decreases items.len() - n,
{
    if n == items.len() {
        assert(items.take(n) =~= items);
        assert(tree_bytes(items)->0.take(tree_bytes(items)->0.len() as int) =~= tree_bytes(
            items,
        )->0);
    } else {
        lemma_tree_prefix(items, n + 1);
        assert(items.take(n + 1).drop_last() =~= items.take(n));
        let part = tree_bytes(items.take(n))->0;
        let more = tree_bytes(items.take(n + 1))->0;
        assert(part =~= more.take(part.len() as int));
        assert(part =~= tree_bytes(items)->0.take(part.len() as int));
    }
}

proof fn lemma_tree_from(items: Seq<TreeItem>, n: int)
    requires
        0 <= n <= items.len(),
        tree_bytes(items) is Some,
        forall|i: int| 0 <= i < items.len() ==> is_plain_item(#[trigger] items[i]),
    ensures
        tree_from(tree_bytes(items)->0, tree_bytes(items.take(n))->0.len() as int) == Ok::<
            _,
            TreeError,
        >(items.skip(n)),
    decreases items.len() - n,
{
    let data = tree_bytes(items)->0;
    lemma_tree_prefix(items, n);
    let part = tree_bytes(items.take(n))->0;
    if n == items.len() {
        assert(items.take(n) =~= items);
        assert(items.skip(n) =~= Seq::<TreeItem>::empty());
    } else {
        let item = items[n];
        assert(is_plain_item(item));
        assert(items.take(n + 1).drop_last() =~= items.take(n));
        assert(items.take(n + 1).last() == item);
        lemma_tree_prefix(items, n + 1);
        hash::lemma_hex_text(item.oid);
        let sha = hash::hex_decoded(item.oid)->0;
        let more = tree_bytes(items.take(n + 1))->0;
        let written = item_prefix(item) + sha;
        let pos = part.len() as int;
        assert(more =~= part + written);
        assert(data.subrange(pos, pos + written.len()) =~= written) by {
            assert forall|i: int| 0 <= i < written.len() implies data[pos + i] == written[i] by {
                assert(data.take(more.len() as int)[pos + i] == more[pos + i]);
            }
        }
        lemma_item_read(data, pos, item);
        lemma_tree_from(items, n + 1);
        assert(items.skip(n) =~= seq![item] + items.skip(n + 1));
    }
}

/// The entries of a tree that was written are read back.
pub proof fn lemma_tree_read_back(items: Seq<TreeItem>)
    requires
        forall|i: int| 0 <= i < items.len() ==> is_plain_item(#[trigger] items[i]),
    ensures
        tree_bytes(items) matches Some(data) && tree_from(data, 0) == Ok::<_, TreeError>(items),
{
    lemma_tree_bytes_some(items);
    lemma_tree_from(items, 0);
    assert(items.take(0) =~= Seq::<TreeItem>::empty());
    assert(items.skip(0) =~= items);
}

proof fn lemma_tree_bytes_some(items: Seq<TreeItem>)
    requires
        forall|i: int| 0 <= i < items.len() ==> is_plain_item(#[trigger] items[i]),
    ensures
        tree_bytes(items) is Some,
    decreases items.len(),
{
    if items.len() > 0 {
        assert(is_plain_item(items[items.len() - 1]));
        hash::lemma_hex_text(items.last().oid);
        let front = items.drop_last();
        assert forall|i: int| 0 <= i < front.len() implies is_plain_item(#[trigger] front[i]) by {
            assert(front[i] == items[i]);
        }
        lemma_tree_bytes_some(front);
    }
}

} // verus!
