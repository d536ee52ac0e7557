//! What the bytes of a tree say, and what is shown of the modes in it.

use vstd::prelude::*;

use crate::git::hash;
use crate::git::tree;
use crate::git::tree::{TreeEntryMode, TreeError, TreeItem};
use crate::text;
use crate::text_laws;

verus! {

// ---------------------------------------------------------------------------------------------
// Modes

proof fn lemma_low_bits(m: u32)
    by (bit_vector)
    ensures
        m & 0o777 == m % 0o1000,
{
}

proof fn lemma_octal_number(s: Seq<char>, n: nat)
    requires
        s.len() > 0,
        text_laws::are_digits_of(s, 8, n),
    ensures
        text::digits_value(s, 8) == Some(n),
        s[0] != '+',
        n <= u32::MAX ==> text::parsed(s, 8, u32::MAX as nat) == Some(n),
        s == "100644"@ ==> n == 0o100644,
        s == "100755"@ ==> n == 0o100755,
        s == "40000"@ ==> n == 0o40000,
        s == "040000"@ ==> n == 0o40000,
        s == "120000"@ ==> n == 0o120000,
        s == "160000"@ ==> n == 0o160000,
{
    lemma_first_digit(s, n);
    text_laws::lemma_parsed(s, 8, n, n);
    text_laws::lemma_parsed(s, 8, u32::MAX as nat, n);
    reveal_strlit("100644");
    reveal_strlit("100755");
    reveal_strlit("40000");
    reveal_strlit("040000");
    reveal_strlit("120000");
    reveal_strlit("160000");
    reveal_with_fuel(text::digits_value, 8);
}

proof fn lemma_first_digit(s: Seq<char>, n: nat)
    requires
        s.len() > 0,
        text_laws::are_digits_of(s, 8, n),
    ensures
        s[0] != '+',
    decreases s.len(),
{
    if s.len() > 1 {
        lemma_first_digit(s.drop_last(), n / 8);
    }
}

/// The permissions that are shown of a file are those in its tree: the last nine bits of the
/// octal number that its mode is written as. So it can be executed on the mount where it can be
/// executed in the repository, and nowhere else. A symbolic link shows all permissions, and a
/// directory and a submodule those of a directory.
pub proof fn lemma_permissions(s: Seq<char>, n: nat)
    requires
        s.len() > 0,
        text_laws::are_digits_of(s, 8, n),
        n <= u32::MAX,
    ensures
        n != 0o40000 && n != 0o120000 && n != 0o160000 ==> TreeEntryMode::of_text(s).posix()
            & 0o777 == n % 0o1000,
        s == "120000"@ ==> TreeEntryMode::of_text(s).posix() & 0o777 == 0o777,
        s == "40000"@ || s == "040000"@ || s == "160000"@ ==> TreeEntryMode::of_text(s).posix()
            & 0o777 == 0o755,
{
    lemma_octal_number(s, n);
    lemma_low_bits(TreeEntryMode::of_text(s).posix());
    reveal_strlit("100644");
    reveal_strlit("100755");
    reveal_strlit("40000");
    reveal_strlit("040000");
    reveal_strlit("120000");
    reveal_strlit("160000");
    lemma_differ();
}

proof fn lemma_differ()
    ensures
        "100755"@ != "100644"@,
        "40000"@ != "100644"@ && "40000"@ != "100755"@,
        "040000"@ != "100644"@ && "040000"@ != "100755"@,
        "120000"@ != "100644"@ && "120000"@ != "100755"@ && "120000"@ != "40000"@ && "120000"@
            != "040000"@,
        "160000"@ != "100644"@ && "160000"@ != "100755"@ && "160000"@ != "40000"@ && "160000"@
            != "040000"@ && "160000"@ != "120000"@,
{
    reveal_strlit("100644");
    reveal_strlit("100755");
    reveal_strlit("40000");
    reveal_strlit("040000");
    reveal_strlit("120000");
    reveal_strlit("160000");
    assert("100755"@[3] != "100644"@[3]);
    assert("040000"@[0] != "100644"@[0]);
    assert("040000"@[0] != "100755"@[0]);
    assert("120000"@[1] != "100644"@[1]);
    assert("120000"@[1] != "100755"@[1]);
    assert("120000"@[0] != "040000"@[0]);
    assert("160000"@[1] != "100644"@[1]);
    assert("160000"@[1] != "100755"@[1]);
    assert("160000"@[0] != "040000"@[0]);
    assert("160000"@[1] != "120000"@[1]);
}

/// The number of a mode.
pub open spec fn mode_number(mode: TreeEntryMode) -> nat {
    match mode {
        TreeEntryMode::RegularFile => 0o100644,
        TreeEntryMode::ExecutableFile => 0o100755,
        TreeEntryMode::Directory => 0o40000,
        TreeEntryMode::Symlink => 0o120000,
        TreeEntryMode::Submodule => 0o160000,
        TreeEntryMode::Other(m) => m as nat,
    }
}

/// The text that a mode is read from determines what it is: by its number where it is one of the
/// known ones, and as that number where it is another.
pub proof fn lemma_mode_read(s: Seq<char>, n: nat)
    requires
        s.len() > 0,
        text_laws::are_digits_of(s, 8, n),
        n <= u32::MAX,
    ensures
        mode_number(TreeEntryMode::of_text(s)) == n,
        s == "100644"@ ==> TreeEntryMode::of_text(s) == TreeEntryMode::RegularFile,
        s == "100755"@ ==> TreeEntryMode::of_text(s) == TreeEntryMode::ExecutableFile,
        s == "40000"@ || s == "040000"@ ==> TreeEntryMode::of_text(s) == TreeEntryMode::Directory,
        s == "120000"@ ==> TreeEntryMode::of_text(s) == TreeEntryMode::Symlink,
        s == "160000"@ ==> TreeEntryMode::of_text(s) == TreeEntryMode::Submodule,
{
    lemma_octal_number(s, n);
    lemma_differ();
}

/// A mode is written as its number, in octal digits and without zeros before them.
pub proof fn lemma_mode_written(mode: TreeEntryMode)
    ensures
        text_laws::are_digits_of(mode.text(), 8, mode_number(mode)),
        mode.text().len() > 0,
        mode_number(mode) > 0 ==> mode.text()[0] != '0',
{
    match mode {
        TreeEntryMode::Other(m) => {
            text_laws::lemma_numeral(m as nat, 8);
        },
        _ => {
            reveal_strlit("100644");
            reveal_strlit("100755");
            reveal_strlit("40000");
            reveal_strlit("120000");
            reveal_strlit("160000");
            let s = mode.text();
            let n = mode_number(mode);
            assert(text::digits_value(s, 8) == Some(n)) by {
                reveal_with_fuel(text::digits_value, 8);
            }
            text_laws::lemma_parsed(s, 8, n, n);
        },
    }
}

// ---------------------------------------------------------------------------------------------
// Bytes

/// An entry as it stands in a tree: the mode, the name and the twenty bytes of the object's name.
pub struct Line {
    pub mode: Seq<char>,
    pub name: Seq<char>,
    pub sha: Seq<u8>,
}

/// Whether an entry can stand in a tree: no space in the mode, and no null in the name.
pub open spec fn can_stand(line: Line) -> bool {
    &&& forall|i: int| 0 <= i < line.mode.len() ==> #[trigger] line.mode[i] != ' '
    &&& forall|i: int| 0 <= i < line.name.len() ==> #[trigger] line.name[i] != '\0'
    &&& line.sha.len() == 20
}

/// The bytes of an entry: the mode, a space, the name, a null byte and the object's name.
pub open spec fn line_bytes(line: Line) -> Seq<u8> {
    vstd::utf8::encode_utf8(line.mode) + seq![0x20u8] + vstd::utf8::encode_utf8(line.name)
        + seq![0u8] + line.sha
}

/// The bytes of entries, one behind the other.
pub open spec fn lines_bytes(lines: Seq<Line>) -> Seq<u8>
    decreases lines.len(),
{
    if lines.len() == 0 {
        Seq::empty()
    } else {
        line_bytes(lines[0]) + lines_bytes(lines.drop_first())
    }
}

/// What an entry says.
pub open spec fn line_item(line: Line) -> TreeItem {
    TreeItem {
        mode: TreeEntryMode::of_text(line.mode),
        name: line.name,
        oid: hash::hex_encoded(line.sha),
    }
}

proof fn lemma_lines_read(data: Seq<u8>, pos: int, lines: Seq<Line>)
    requires
        0 <= pos <= data.len(),
        data.skip(pos) == lines_bytes(lines),
        forall|i: int| 0 <= i < lines.len() ==> can_stand(#[trigger] lines[i]),
    ensures
        tree::tree_from(data, pos) == Ok::<_, TreeError>(
            Seq::new(lines.len(), |i: int| line_item(lines[i])),
        ),
    decreases lines.len(),
{
    let items = Seq::new(lines.len(), |i: int| line_item(lines[i]));
    if lines.len() == 0 {
        assert(data.skip(pos).len() == 0);
        assert(items =~= Seq::<TreeItem>::empty());
    } else {
        let line = lines[0];
        let rest = lines.drop_first();
        assert(can_stand(lines[0]));
        let here = line_bytes(line);
        let next = pos + here.len();
        assert(data.skip(pos).len() == here.len() + lines_bytes(rest).len());
        assert(data.subrange(pos, next) =~= here) by {
            assert forall|i: int| 0 <= i < here.len() implies data[pos + i] == here[i] by {
                assert(data.skip(pos)[i] == lines_bytes(lines)[i]);
            }
        }
        assert(data.skip(next) =~= lines_bytes(rest)) by {
            assert forall|i: int| 0 <= i < lines_bytes(rest).len() implies data[next + i]
                == lines_bytes(rest)[i] by {
                assert(data.skip(pos)[here.len() + i] == lines_bytes(lines)[here.len() + i]);
            }
        }
        assert forall|i: int| 0 <= i < rest.len() implies can_stand(#[trigger] rest[i]) by {
            assert(rest[i] == lines[i + 1]);
        }
        lemma_lines_read(data, next, rest);
        let mode = vstd::utf8::encode_utf8(line.mode);
        let name = vstd::utf8::encode_utf8(line.name);
        text::lemma_encode_avoids(line.mode, 32);
        text::lemma_encode_avoids(line.name, 0);
        tree::lemma_item_parts(data, pos, mode, name, line.sha);
        vstd::utf8::encode_utf8_decode_utf8(line.mode);
        vstd::utf8::encode_utf8_decode_utf8(line.name);
        vstd::utf8::encode_utf8_valid_utf8(line.mode);
        vstd::utf8::encode_utf8_valid_utf8(line.name);
        let others = Seq::new(rest.len(), |i: int| line_item(rest[i]));
        assert(items =~= seq![line_item(line)] + others);
    }
}

/// The entries of a tree are what its bytes say, one behind the other and none left out.
pub proof fn lemma_tree_parsed(lines: Seq<Line>)
    requires
        forall|i: int| 0 <= i < lines.len() ==> can_stand(#[trigger] lines[i]),
    ensures
        tree::tree_from(lines_bytes(lines), 0) == Ok::<_, TreeError>(
            Seq::new(lines.len(), |i: int| line_item(lines[i])),
        ),
{
    let data = lines_bytes(lines);
    assert(data.skip(0) =~= data);
    lemma_lines_read(data, 0, lines);
}

/// The entry that is written for an item.
pub open spec fn item_line(item: TreeItem) -> Line {
    Line { mode: item.mode.text(), name: item.name, sha: hash::hex_decoded(item.oid)->0 }
}

proof fn lemma_lines_push(lines: Seq<Line>, last: Line)
    ensures
        lines_bytes(lines.push(last)) == lines_bytes(lines) + line_bytes(last),
    decreases lines.len(),
{
    let all = lines.push(last);
    if lines.len() == 0 {
        assert(all.drop_first() =~= lines);
        assert(lines_bytes(all) =~= lines_bytes(lines) + line_bytes(last));
    } else {
        assert(all.drop_first() =~= lines.drop_first().push(last));
        lemma_lines_push(lines.drop_first(), last);
        assert(lines_bytes(all) =~= lines_bytes(lines) + line_bytes(last));
    }
}

/// A tree is written entry by entry, each with its mode, its name and its object's name; it cannot
/// be where one of these is not in hexadecimal.
pub proof fn lemma_tree_written(items: Seq<TreeItem>)
    ensures
        tree::tree_bytes(items) is Some <==> forall|i: int|
            0 <= i < items.len() ==> hash::hex_decoded((#[trigger] items[i]).oid) is Some,
        tree::tree_bytes(items) is Some ==> tree::tree_bytes(items)->0 == lines_bytes(
            Seq::new(items.len(), |i: int| item_line(items[i])),
        ),
    decreases items.len(),
{
    if items.len() > 0 {
        let front = items.drop_last();
        let last = items.last();
        lemma_tree_written(front);
        let all_hex = forall|i: int|
            0 <= i < items.len() ==> hash::hex_decoded((#[trigger] items[i]).oid) is Some;
        if all_hex {
            assert(hash::hex_decoded(items[items.len() - 1].oid) is Some);
            assert forall|i: int| 0 <= i < front.len() implies hash::hex_decoded(
                (#[trigger] front[i]).oid,
            ) is Some by {
                assert(front[i] == items[i]);
            }
        }
        if tree::tree_bytes(items) is Some {
            assert forall|i: int| 0 <= i < items.len() implies hash::hex_decoded(
                (#[trigger] items[i]).oid,
            ) is Some by {
                if i < front.len() {
                    assert(front[i] == items[i]);
                }
            }
            let before = Seq::new(front.len(), |i: int| item_line(front[i]));
            let lines = Seq::new(items.len(), |i: int| item_line(items[i]));
            assert(lines =~= before.push(item_line(last)));
            lemma_lines_push(before, item_line(last));
            lemma_prefix(last);
            assert(tree::tree_bytes(items)->0 =~= lines_bytes(before) + line_bytes(
                item_line(last),
            ));
        }
    }
}

proof fn lemma_prefix(item: TreeItem)
    ensures
        tree::item_prefix(item) == vstd::utf8::encode_utf8(item.mode.text()) + seq![0x20u8]
            + vstd::utf8::encode_utf8(item.name) + seq![0u8],
{
    let m = item.mode.text();
    text::lemma_encode_concat(m + seq![' '] + item.name, seq!['\0']);
    text::lemma_encode_concat(m + seq![' '], item.name);
    text::lemma_encode_concat(m, seq![' ']);
    assert(vstd::utf8::is_ascii_chars(seq![' ']));
    assert(vstd::utf8::is_ascii_chars(seq!['\0']));
    vstd::utf8::is_ascii_chars_encode_utf8(seq![' ']);
    vstd::utf8::is_ascii_chars_encode_utf8(seq!['\0']);
    assert(seq![' '][0] as u8 == 32u8);
    assert(seq!['\0'][0] as u8 == 0u8);
    assert(vstd::utf8::encode_utf8(seq![' ']) =~= seq![0x20u8]);
    assert(vstd::utf8::encode_utf8(seq!['\0']) =~= seq![0u8]);
}

/// Whether bytes are those of entries that say these items.
pub open spec fn is_said_by(data: Seq<u8>, items: Seq<TreeItem>, lines: Seq<Line>) -> bool {
    &&& data == lines_bytes(lines)
    &&& lines.len() == items.len()
    &&& forall|i: int|
        0 <= i < lines.len() ==> (#[trigger] lines[i]).sha.len() == 20 && line_item(lines[i])
            == items[i]
}

proof fn lemma_lines_found(data: Seq<u8>, pos: int) -> (lines: Seq<Line>)
    requires
        0 <= pos <= data.len(),
        tree::tree_from(data, pos) is Ok,
    ensures
        is_said_by(data.skip(pos), tree::tree_from(data, pos)->Ok_0, lines),
    decreases data.len() - pos,
{
    if pos >= data.len() {
        assert(data.skip(pos) =~= Seq::<u8>::empty());
        Seq::empty()
    } else {
        let (item, next) = tree::item_at(data, pos)->Ok_0;
        tree::lemma_find_byte(data, 32, pos);
        let space = tree::find_byte(data, 32, pos)->0;
        tree::lemma_find_byte(data, 0, space + 1);
        let null = tree::find_byte(data, 0, space + 1)->0;
        let mode = data.subrange(pos, space);
        let name = data.subrange(space + 1, null);
        let sha = data.subrange(null + 1, null + 21);
        vstd::utf8::decode_utf8_encode_utf8(mode);
        vstd::utf8::decode_utf8_encode_utf8(name);
        let line = Line {
            mode: vstd::utf8::decode_utf8(mode),
            name: vstd::utf8::decode_utf8(name),
            sha,
        };
        let rest = lemma_lines_found(data, next);
        let lines = seq![line] + rest;
        let items = tree::tree_from(data, pos)->Ok_0;
        let others = tree::tree_from(data, next)->Ok_0;
        assert(lines.drop_first() =~= rest);
        assert(data.skip(pos) =~= line_bytes(line) + data.skip(next));
        assert forall|i: int| 0 <= i < lines.len() implies (#[trigger] lines[i]).sha.len() == 20
            && line_item(lines[i]) == items[i] by {
            if i > 0 {
                assert(lines[i] == rest[i - 1] && items[i] == others[i - 1]);
            }
        }
        lines
    }
}

/// Bytes are read as a tree only where they are entries, one behind the other up to the end; any
/// others are refused.
pub proof fn lemma_tree_only(data: Seq<u8>, items: Seq<TreeItem>)
    requires
        tree::tree_from(data, 0) == Ok::<_, TreeError>(items),
    ensures
        exists|lines: Seq<Line>| #[trigger] is_said_by(data, items, lines),
{
    let lines = lemma_lines_found(data, 0);
    assert(data.skip(0) =~= data);
    assert(is_said_by(data, items, lines));
}

} // verus!
