//! Commit messages made from the paths that changed.

use vstd::prelude::*;

use crate::maps::TextMap;
use crate::sorting;
use crate::sorting::SortKey;
use crate::text;
use crate::vfs::filter;

verus! {

/// A path without the white space and the slashes around it.
pub open spec fn clean_path(path: Seq<char>) -> Seq<char> {
    text::unslashed(text::trimmed(path))
}

/// Whether a path is mentioned: it names something, and no part of it is macOS metadata.
pub open spec fn is_mentioned(path: Seq<char>) -> bool {
    &&& clean_path(path).len() > 0
    &&& forall|i: int|
        0 <= i < text::split(clean_path(path), '/').len() ==> !filter::apple_metadata(
            #[trigger] text::split(clean_path(path), '/')[i],
        )
}

/// Whether two texts are in order, by their bytes, and not the same.
pub open spec fn text_before(a: Seq<char>, b: Seq<char>) -> bool {
    sorting::lex_le(vstd::utf8::encode_utf8(a), vstd::utf8::encode_utf8(b)) && a != b
}

/// Whether `files` lists the clean paths that are mentioned, each once and in order.
pub open spec fn is_file_list(files: Seq<Seq<char>>, paths: Seq<Seq<char>>) -> bool {
    &&& forall|i: int, j: int|
        0 <= i < j < files.len() ==> text_before(#[trigger] files[i], #[trigger] files[j])
    &&& forall|f: Seq<char>| #[trigger]
        files.contains(f) <==> exists|p: int|
            0 <= p < paths.len() && is_mentioned(#[trigger] paths[p]) && clean_path(paths[p]) == f
}

/// The first place of a character.
pub open spec fn find_char(s: Seq<char>, c: char, from: int) -> Option<int>
    decreases s.len() - from,
{
    if from >= s.len() {
        None
    } else if s[from] == c {
        Some(from)
    } else {
        find_char(s, c, from + 1)
    }
}

/// The top-level directory of a file, with a slash behind it.
pub open spec fn dir_of(file: Seq<char>) -> Seq<char> {
    match find_char(file, '/', 0) {
        Some(at) => file.take(at) + seq!['/'],
        None => "root/"@,
    }
}

/// How many of the files are in a directory.
pub open spec fn count_in(files: Seq<Seq<char>>, dir: Seq<char>) -> nat
    decreases files.len(),
{
    if files.len() == 0 {
        0
    } else {
        count_in(files.drop_last(), dir) + if dir_of(files.last()) == dir {
            1nat
        } else {
            0
        }
    }
}

/// Whether a directory with its count of files comes before another: more files first, then by
/// name.
pub open spec fn dir_before(a: (Seq<char>, nat), b: (Seq<char>, nat)) -> bool {
    a.1 > b.1 || a.1 == b.1 && text_before(a.0, b.0)
}

/// Whether `dirs` lists the directories of the files with their counts, each once and in order.
pub open spec fn is_dir_list(dirs: Seq<(Seq<char>, nat)>, files: Seq<Seq<char>>) -> bool {
    &&& forall|i: int, j: int|
        0 <= i < j < dirs.len() ==> dir_before(#[trigger] dirs[i], #[trigger] dirs[j])
    &&& forall|i: int|
        0 <= i < dirs.len() ==> (#[trigger] dirs[i]).1 == count_in(files, dirs[i].0) && dirs[i].1
            > 0
    &&& forall|f: int|
        0 <= f < files.len() ==> exists|i: int|
            0 <= i < dirs.len() && (#[trigger] dirs[i]).0 == dir_of(#[trigger] files[f])
}

/// The names of directories.
pub open spec fn dir_names(dirs: Seq<(Seq<char>, nat)>) -> Seq<Seq<char>> {
    dirs.map_values(|d: (Seq<char>, nat)| d.0)
}

/// The first line of a message about many files.
pub open spec fn subject(count: nat, dirs: Seq<(Seq<char>, nat)>) -> Seq<char> {
    let start = "Update "@ + text::numeral(count, 10);
    if dirs.len() == 1 {
        start + " files in "@ + dirs[0].0
    } else if dirs.len() <= 3 {
        start + " files across "@ + text::joined(dir_names(dirs), ", "@)
    } else {
        let others = (dirs.len() - 2) as nat;
        start + " files across "@ + dirs[0].0 + ", "@ + dirs[1].0 + " (and "@ + (if others == 1 {
            "1 other directory"@
        } else {
            text::numeral(others, 10) + " other directories"@
        }) + ")"@
    }
}

/// The line about a directory.
pub open spec fn dir_line(dir: (Seq<char>, nat)) -> Seq<char> {
    "- "@ + dir.0 + " ("@ + text::numeral(dir.1, 10) + (if dir.1 == 1 {
        " file)\n"@
    } else {
        " files)\n"@
    })
}

/// The lines about directories.
pub open spec fn dir_lines(dirs: Seq<(Seq<char>, nat)>) -> Seq<char>
    decreases dirs.len(),
{
    if dirs.len() == 0 {
        Seq::empty()
    } else {
        dir_lines(dirs.drop_last()) + dir_line(dirs.last())
    }
}

/// The message for a list of files: up to three by name, more by directory.
pub open spec fn is_message(message: Seq<char>, files: Seq<Seq<char>>) -> bool {
    if files.len() == 0 {
        message == "Empty commit: no files changed"@
    } else if files.len() <= 3 {
        message == "Update "@ + text::joined(files, ", "@)
    } else {
        exists|dirs: Seq<(Seq<char>, nat)>| #[trigger]
            is_dir_list(dirs, files) && message == subject(files.len(), dirs)
                + "\n\nChanged directories:\n"@ + dir_lines(dirs)
    }
}

/// The characters of paths.
pub open spec fn path_views(paths: Seq<String>) -> Seq<Seq<char>> {
    paths.map_values(|p: String| p@)
}

/// Generates a commit message from the paths that changed, relative to the repository.
///
/// - Paths of macOS metadata files (`.DS_Store`, `._*`) are left out.
/// - No files: "Empty commit: no files changed".
/// - One to three files: "Update <file1>, <file2>, ...".
/// - More: the most active top-level directories in the first line, and a list of the directories
///   behind it.
pub fn generate_commit_message(changed_paths: &[String]) -> (message: String)
    ensures
        exists|files: Seq<Seq<char>>| #[trigger]
            is_file_list(files, path_views(changed_paths@)) && is_message(message@, files),
{
    let files = mentioned_files(changed_paths);
    let total: usize = files.len();
    if total == 0 {
        return "Empty commit: no files changed".to_string();
    }
    let mut out: Vec<char> = Vec::new();
    text::push_str(&mut out, "Update ");
    if total <= 3 {
        let mut list = text::join(&files, ", ");
        out.append(&mut list);
        assert(out@ =~= "Update "@ + text::joined(text::views(files@), ", "@));
        return text::from_chars(out);
    }
    let dirs = count_dirs(&files);
    text::push_numeral(&mut out, total as u64, 10);
    push_subject(&mut out, &dirs);
    let ghost list = dir_list(dirs@);
    assert(out@ =~= subject(total as nat, list));
    text::push_str(&mut out, "\n\nChanged directories:\n");
    let ghost head = out@;
    let mut i: usize = 0;
    assert(list.take(0) =~= Seq::<(Seq<char>, nat)>::empty());
    while i < dirs.len()
        invariant
            i <= dirs@.len(),
            list == dir_list(dirs@),
            out@ == head + dir_lines(list.take(i as int)),
        decreases dirs@.len() - i,
    {
        let ghost before = out@;
        text::push_str(&mut out, "- ");
        push_chars(&mut out, &dirs[i].0);
        text::push_str(&mut out, " (");
        text::push_numeral(&mut out, dirs[i].1, 10);
        if dirs[i].1 == 1 {
            text::push_str(&mut out, " file)\n");
        } else {
            text::push_str(&mut out, " files)\n");
        }
        assert(out@ =~= before + dir_line(list[i as int]));
        assert(list.take(i as int + 1).drop_last() =~= list.take(i as int));
        i += 1;
        assert(out@ =~= head + dir_lines(list.take(i as int)));
    }
    assert(list.take(i as int) =~= list);
    text::from_chars(out)
}

fn push_chars(out: &mut Vec<char>, more: &Vec<char>)
    ensures
        final(out)@ == old(out)@ + more@,
{
    let mut copy = text::chars_range(more.as_slice(), 0, more.len());
    assert(copy@ =~= more@);
    out.append(&mut copy);
}

fn push_subject(out: &mut Vec<char>, dirs: &Vec<(Vec<char>, u64)>)
    requires
        dirs@.len() > 0,
    ensures
        forall|count: nat|
            old(out)@ == "Update "@ + #[trigger] text::numeral(count, 10) ==> final(out)@
                == subject(count, dir_list(dirs@)),
{
    let ghost list = dir_list(dirs@);
    let ghost start = out@;
    let n: usize = dirs.len();
    if n == 1 {
        text::push_str(out, " files in ");
        push_chars(out, &dirs[0].0);
        assert(out@ =~= start + " files in "@ + list[0].0);
    } else if n <= 3 {
        text::push_str(out, " files across ");
        let mut names: Vec<Vec<char>> = Vec::new();
        let mut i: usize = 0;
        while i < n
            invariant
                i <= n == dirs@.len(),
                names@.len() == i,
                forall|j: int| 0 <= j < i ==> (#[trigger] names@[j])@ == dirs@[j].0@,
            decreases n - i,
        {
            let name = text::chars_range(dirs[i].0.as_slice(), 0, dirs[i].0.len());
            assert(name@ =~= dirs@[i as int].0@);
            names.push(name);
            i += 1;
        }
        let mut joined = text::join(&names, ", ");
        assert(text::views(names@) =~= dir_names(list));
        out.append(&mut joined);
        assert(out@ =~= start + " files across "@ + text::joined(dir_names(list), ", "@));
    } else {
        text::push_str(out, " files across ");
        push_chars(out, &dirs[0].0);
        text::push_str(out, ", ");
        push_chars(out, &dirs[1].0);
        text::push_str(out, " (and ");
        let ghost so_far = out@;
        assert(so_far =~= start + " files across "@ + list[0].0 + ", "@ + list[1].0
            + " (and "@);
        if n - 2 == 1 {
            text::push_str(out, "1 other directory");
        } else {
            text::push_numeral(out, (n - 2) as u64, 10);
            text::push_str(out, " other directories");
            assert(out@ =~= so_far + (text::numeral((n - 2) as nat, 10)
                + " other directories"@));
        }
        text::push_str(out, ")");
    }
}

/// Directories with their counts.
pub open spec fn dir_list(dirs: Seq<(Vec<char>, u64)>) -> Seq<(Seq<char>, nat)> {
    dirs.map_values(|d: (Vec<char>, u64)| (d.0@, d.1 as nat))
}

fn is_listed(clean: &Vec<char>) -> (r: bool)
    ensures
        r == (clean@.len() > 0 && forall|i: int|
            0 <= i < text::split(clean@, '/').len() ==> !filter::apple_metadata(
                #[trigger] text::split(clean@, '/')[i],
            )),
{
    if clean.len() == 0 {
        return false;
    }
    let parts = text::split_at_char(clean.as_slice(), '/');
    let ghost all = text::split(clean@, '/');
    let mut i: usize = 0;
    while i < parts.len()
        invariant
            i <= parts@.len(),
            all == text::views(parts@),
            all == text::split(clean@, '/'),
            forall|j: int| 0 <= j < i ==> !filter::apple_metadata(#[trigger] all[j]),
        decreases parts@.len() - i,
    {
        let part = text::chars_range(parts[i].as_slice(), 0, parts[i].len());
        assert(part@ =~= all[i as int]);
        if filter::is_apple_metadata(text::from_chars(part).as_str()) {
            return false;
        }
        i += 1;
    }
    true
}

/// Whether a path among the first `n` is mentioned and has this clean form.
pub open spec fn is_from(paths: Seq<Seq<char>>, n: int, f: Seq<char>) -> bool {
    exists|p: int|
        0 <= p < n && is_mentioned(#[trigger] paths[p]) && clean_path(paths[p]) == f
}

fn mentioned_files(changed_paths: &[String]) -> (files: Vec<Vec<char>>)
    ensures
        is_file_list(text::views(files@), path_views(changed_paths@)),
{
    let ghost paths = path_views(changed_paths@);
    let mut seen: TextMap<bool> = TextMap::new();
    let mut i: usize = 0;
    while i < changed_paths.len()
        invariant
            i <= changed_paths@.len() == paths.len(),
            paths == path_views(changed_paths@),
            seen.wf(),
            forall|f: Seq<char>| #[trigger] seen@.contains_key(f) <==> is_from(paths, i as int, f),
        decreases changed_paths@.len() - i,
    {
        let chars = text::chars_of(changed_paths[i].as_str());
        let clean = text::trim_slashes(&text::trim(&chars));
        let ghost before = seen@;
        assert(paths[i as int] == changed_paths@[i as int]@);
        assert(clean@ == clean_path(paths[i as int]));
        let listed = is_listed(&clean);
        assert(listed == is_mentioned(paths[i as int]));
        if listed {
            seen.insert(text::from_chars(clean), true);
        }
        i += 1;
        assert forall|f: Seq<char>| #[trigger] seen@.contains_key(f) <==> is_from(
            paths,
            i as int,
            f,
        ) by {
            if is_from(paths, i as int, f) && !before.contains_key(f) {
                let p = choose|p: int|
                    0 <= p < i && is_mentioned(#[trigger] paths[p]) && clean_path(paths[p]) == f;
                assert(p == i - 1);
            }
            if before.contains_key(f) {
                let p = choose|p: int|
                    0 <= p < i - 1 && is_mentioned(#[trigger] paths[p]) && clean_path(paths[p])
                        == f;
                assert(is_mentioned(paths[p]));
            }
        }
    }
    let ghost names = seen.keys();
    let mut keys: Vec<Vec<u8>> = Vec::new();
    i = 0;
    while i < seen.len()
        invariant
            i <= names.len(),
            seen.wf(),
            names == seen.keys(),
            keys@.len() == i,
            forall|j: int|
                0 <= j < i ==> (#[trigger] keys@[j])@ == vstd::utf8::encode_utf8(names[j]),
        decreases names.len() - i,
    {
        keys.push(text::bytes_of(seen.key_at(i).as_str()));
        i += 1;
    }
    let order = sorting::sorting(&keys);
    let mut files: Vec<Vec<char>> = Vec::new();
    i = 0;
    while i < order.len()
        invariant
            i <= order@.len() == names.len(),
            seen.wf(),
            names == seen.keys(),
            forall|j: int| 0 <= j < order@.len() ==> 0 <= #[trigger] order@[j] < names.len(),
            files@.len() == i,
            forall|j: int| 0 <= j < i ==> (#[trigger] files@[j])@ == names[order@[j] as int],
        decreases order@.len() - i,
    {
        files.push(text::chars_of(seen.key_at(order[i]).as_str()));
        i += 1;
    }
    proof {
        let list = text::views(files@);
        seen.lemma_keys();
        assert forall|a: int, b: int| 0 <= a < b < list.len() implies text_before(
            #[trigger] list[a],
            #[trigger] list[b],
        ) by {
            let x = order@[a] as int;
            let y = order@[b] as int;
            assert(sorting::goes_before(keys@, x, y));
            assert(list[a] == names[x] && list[b] == names[y]);
            assert(keys@[x]@ == vstd::utf8::encode_utf8(names[x]));
            assert(keys@[y]@ == vstd::utf8::encode_utf8(names[y]));
            sorting::lemma_lex_order(keys@[x]@, keys@[x]@, keys@[x]@);
            assert(x != y);
        }
        assert forall|f: Seq<char>| #[trigger] list.contains(f) <==> is_from(
            paths,
            paths.len() as int,
            f,
        ) by {
            if list.contains(f) {
                let a = choose|a: int| 0 <= a < list.len() && list[a] == f;
                assert(names[order@[a] as int] == f);
                assert(names.contains(f));
            }
            if is_from(paths, paths.len() as int, f) {
                assert(seen@.contains_key(f));
                assert(names.contains(f));
                let x = choose|x: int| 0 <= x < names.len() && names[x] == f;
                assert(order@.contains(x as usize));
                let a = choose|a: int| 0 <= a < order@.len() && order@[a] == x as usize;
                assert(list[a] == f);
            }
        }
    }
    files
}

/// The first place of a character.
pub fn find(s: &Vec<char>, c: char) -> (r: Option<usize>)
    ensures
        match r {
            Some(at) => find_char(s@, c, 0) == Some(at as int) && at < s@.len(),
            None => find_char(s@, c, 0) is None,
        },
{
    let mut i: usize = 0;
    while i < s.len()
        invariant
            i <= s@.len(),
            find_char(s@, c, 0) == find_char(s@, c, i as int),
        decreases s@.len() - i,
    {
        if s[i] == c {
            return Some(i);
        }
        i += 1;
    }
    None
}

fn top_dir(file: &Vec<char>) -> (dir: String)
    ensures
        dir@ == dir_of(file@),
{
    match find(file, '/') {
        Some(at) => {
            let mut dir = text::chars_range(file.as_slice(), 0, at);
            dir.push('/');
            assert(dir@ =~= file@.take(at as int) + seq!['/']);
            text::from_chars(dir)
        },
        None => "root/".to_string(),
    }
}

/// A directory's count of files and its name, as directories are sorted.
struct DirKey {
    count: u64,
    name: Vec<u8>,
}

impl SortKey for DirKey {
    closed spec fn key_le(&self, other: &Self) -> bool {
        self.count > other.count || self.count == other.count && sorting::lex_le(
            self.name@,
            other.name@,
        )
    }

    proof fn lemma_order(a: &Self, b: &Self, c: &Self) {
        sorting::lemma_lex_order(a.name@, b.name@, c.name@);
    }

    fn le(&self, other: &Self) -> (r: bool) {
        self.count > other.count || (self.count == other.count && sorting::bytes_le(
            self.name.as_slice(),
            other.name.as_slice(),
        ))
    }
}

proof fn lemma_count_positive(files: Seq<Seq<char>>, f: int)
    requires
        0 <= f < files.len(),
    ensures
        count_in(files, dir_of(files[f])) > 0,
    decreases files.len(),
{
    if f < files.len() - 1 {
        assert(files.drop_last()[f] == files[f]);
        lemma_count_positive(files.drop_last(), f);
    }
}

fn count_dirs(files: &Vec<Vec<char>>) -> (dirs: Vec<(Vec<char>, u64)>)
    requires
        files@.len() > 0,
    ensures
        is_dir_list(dir_list(dirs@), text::views(files@)),
        dirs@.len() > 0,
{
    let ghost all = text::views(files@);
    let mut counts: TextMap<u64> = TextMap::new();
    let mut i: usize = 0;
    assert(all.take(0) =~= Seq::<Seq<char>>::empty());
    while i < files.len()
        invariant
            i <= files@.len() == all.len(),
            all == text::views(files@),
            counts.wf(),
            forall|d: Seq<char>| #[trigger]
                counts@.contains_key(d) <==> count_in(all.take(i as int), d) > 0,
            forall|d: Seq<char>| #[trigger]
                counts@.contains_key(d) ==> counts@[d] == count_in(all.take(i as int), d)
                    && counts@[d] <= i,
        decreases files@.len() - i,
    {
        let dir = top_dir(&files[i]);
        assert(all.take(i as int + 1).drop_last() =~= all.take(i as int));
        assert(all.take(i as int + 1).last() == files@[i as int]@);
        let count: u64 = match counts.get(dir.as_str()) {
            Some(n) => *n + 1,
            None => 1,
        };
        counts.insert(dir, count);
        i += 1;
    }
    assert(all.take(i as int) =~= all);
    let ghost names = counts.keys();
    proof {
        counts.lemma_keys();
    }
    let mut keys: Vec<DirKey> = Vec::new();
    i = 0;
    while i < counts.len()
        invariant
            i <= names.len(),
            counts.wf(),
            names == counts.keys(),
            keys@.len() == i,
            forall|j: int|
                0 <= j < i ==> (#[trigger] keys@[j]).name@ == vstd::utf8::encode_utf8(names[j])
                    && keys@[j].count == counts@[names[j]],
        decreases names.len() - i,
    {
        keys.push(
            DirKey {
                count: *counts.value_at(i),
                name: text::bytes_of(counts.key_at(i).as_str()),
            },
        );
        i += 1;
    }
    let order = sorting::sorting(&keys);
    let mut dirs: Vec<(Vec<char>, u64)> = Vec::new();
    i = 0;
    while i < order.len()
        invariant
            i <= order@.len() == names.len(),
            counts.wf(),
            names == counts.keys(),
            forall|j: int| 0 <= j < order@.len() ==> 0 <= #[trigger] order@[j] < names.len(),
            dirs@.len() == i,
            forall|j: int|
                0 <= j < i ==> (#[trigger] dirs@[j]).0@ == names[order@[j] as int] && dirs@[j].1
                    == counts@[names[order@[j] as int]],
        decreases order@.len() - i,
    {
        let place: usize = order[i];
        dirs.push((text::chars_of(counts.key_at(place).as_str()), *counts.value_at(place)));
        i += 1;
    }
    proof {
        let list = dir_list(dirs@);
        assert forall|a: int, b: int| 0 <= a < b < list.len() implies dir_before(
            #[trigger] list[a],
            #[trigger] list[b],
        ) by {
            let x = order@[a] as int;
            let y = order@[b] as int;
            assert(sorting::goes_before(keys@, x, y));
            assert(keys@[x].count == list[a].1 && keys@[y].count == list[b].1);
            assert(list[a].0 == names[x] && list[b].0 == names[y]);
            sorting::lemma_lex_order(keys@[x].name@, keys@[x].name@, keys@[x].name@);
            assert(x != y);
        }
        assert forall|a: int| 0 <= a < list.len() implies (#[trigger] list[a]).1 == count_in(
            all,
            list[a].0,
        ) && list[a].1 > 0 by {
            let d = names[order@[a] as int];
            assert(dirs@[a].0@ == d);
            assert(names.contains(d));
            assert(counts@.contains_key(d));
        }
        assert forall|f: int| 0 <= f < all.len() implies exists|a: int|
            0 <= a < list.len() && (#[trigger] list[a]).0 == dir_of(#[trigger] all[f]) by {
            lemma_count_positive(all, f);
            let d = dir_of(all[f]);
            assert(counts@.contains_key(d));
            assert(names.contains(d));
            let x = choose|x: int| 0 <= x < names.len() && names[x] == d;
            assert(order@.contains(x as usize));
            let a = choose|a: int| 0 <= a < order@.len() && order@[a] == x as usize;
            assert(list[a].0 == d);
        }
        assert(0 <= 0 < all.len());
        let a = choose|a: int| 0 <= a < list.len() && (#[trigger] list[a]).0 == dir_of(all[0]);
        assert(list.len() > 0);
    }
    dirs
}

// ---------------------------------------------------------------------------------------------
// What holds of messages

/// No file of macOS metadata is mentioned: no part of a mentioned file's path is one.
pub proof fn lemma_no_metadata(files: Seq<Seq<char>>, paths: Seq<Seq<char>>, f: int, part: int)
    requires
        is_file_list(files, paths),
        0 <= f < files.len(),
        0 <= part < text::split(files[f], '/').len(),
    ensures
        !filter::apple_metadata(text::split(files[f], '/')[part]),
{
    assert(files.contains(files[f]));
}

/// The paths determine the list of files.
pub proof fn lemma_file_list_unique(
    a: Seq<Seq<char>>,
    b: Seq<Seq<char>>,
    paths: Seq<Seq<char>>,
)
    requires
        is_file_list(a, paths),
        is_file_list(b, paths),
    ensures
        a == b,
{
    let before = |x: Seq<char>, y: Seq<char>| text_before(x, y);
    assert forall|x: Seq<char>, y: Seq<char>| #[trigger] before(x, y) implies !before(y, x) by {
        lemma_text_before(x, y);
    }
    assert forall|f: Seq<char>| #[trigger] a.contains(f) <==> b.contains(f) by {
        assert(a.contains(f) <==> is_from(paths, paths.len() as int, f));
        assert(b.contains(f) <==> is_from(paths, paths.len() as int, f));
    }
    sorting::lemma_strict_list_unique(a, b, before);
}

proof fn lemma_text_before(x: Seq<char>, y: Seq<char>)
    requires
        text_before(x, y),
    ensures
        !text_before(y, x),
{
    let a = vstd::utf8::encode_utf8(x);
    let b = vstd::utf8::encode_utf8(y);
    sorting::lemma_lex_order(a, b, a);
    if sorting::lex_le(b, a) {
        text::lemma_encode_injective(x, y);
    }
}

/// The files determine the list of directories.
pub proof fn lemma_dir_list_unique(
    a: Seq<(Seq<char>, nat)>,
    b: Seq<(Seq<char>, nat)>,
    files: Seq<Seq<char>>,
)
    requires
        is_dir_list(a, files),
        is_dir_list(b, files),
    ensures
        a == b,
{
    let before = |x: (Seq<char>, nat), y: (Seq<char>, nat)| dir_before(x, y);
    assert forall|x: (Seq<char>, nat), y: (Seq<char>, nat)| #[trigger]
        before(x, y) implies !before(y, x) by {
        if x.1 == y.1 {
            lemma_text_before(x.0, y.0);
        }
    }
    assert forall|d: (Seq<char>, nat)| #[trigger] a.contains(d) <==> b.contains(d) by {
        if a.contains(d) {
            lemma_dir_listed(a, b, files, d);
        }
        if b.contains(d) {
            lemma_dir_listed(b, a, files, d);
        }
    }
    sorting::lemma_strict_list_unique(a, b, before);
}

proof fn lemma_dir_listed(
    a: Seq<(Seq<char>, nat)>,
    b: Seq<(Seq<char>, nat)>,
    files: Seq<Seq<char>>,
    d: (Seq<char>, nat),
)
    requires
        is_dir_list(a, files),
        is_dir_list(b, files),
        a.contains(d),
    ensures
        b.contains(d),
{
    let i = choose|i: int| 0 <= i < a.len() && a[i] == d;
    assert(a[i].1 == count_in(files, d.0) && d.1 > 0);
    let f = lemma_counted(files, d.0);
    assert(dir_of(files[f]) == d.0);
    let j = choose|j: int| 0 <= j < b.len() && (#[trigger] b[j]).0 == dir_of(files[f]);
    assert(b[j] == d);
}

proof fn lemma_counted(files: Seq<Seq<char>>, dir: Seq<char>) -> (f: int)
    requires
        count_in(files, dir) > 0,
    ensures
        0 <= f < files.len(),
        dir_of(files[f]) == dir,
    decreases files.len(),
{
    if dir_of(files.last()) == dir {
        files.len() - 1
    } else {
        lemma_counted(files.drop_last(), dir)
    }
}

/// The paths determine the message.
pub proof fn lemma_message_unique(
    a: Seq<char>,
    b: Seq<char>,
    files_a: Seq<Seq<char>>,
    files_b: Seq<Seq<char>>,
    paths: Seq<Seq<char>>,
)
    requires
        is_file_list(files_a, paths),
        is_file_list(files_b, paths),
        is_message(a, files_a),
        is_message(b, files_b),
    ensures
        a == b,
{
    lemma_file_list_unique(files_a, files_b, paths);
    if files_a.len() > 3 {
        let dirs_a = choose|dirs: Seq<(Seq<char>, nat)>| #[trigger]
            is_dir_list(dirs, files_a) && a == subject(files_a.len(), dirs)
                + "\n\nChanged directories:\n"@ + dir_lines(dirs);
        let dirs_b = choose|dirs: Seq<(Seq<char>, nat)>| #[trigger]
            is_dir_list(dirs, files_a) && b == subject(files_a.len(), dirs)
                + "\n\nChanged directories:\n"@ + dir_lines(dirs);
        lemma_dir_list_unique(dirs_a, dirs_b, files_a);
    }
}

} // verus!
