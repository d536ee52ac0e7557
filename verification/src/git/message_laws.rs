//! What a commit message says of the files that changed.

use vstd::prelude::*;

use crate::git::commit_message;
use crate::sorting;
use crate::text;
use crate::text_laws;
use crate::vfs::filter;

verus! {

// ---------------------------------------------------------------------------------------------
// The files

/// The path of a file is written without the white space around it, and then without the slashes
/// around that.
pub proof fn lemma_clean_path(path: Seq<char>)
    ensures
        exists|inner: Seq<char>| #[trigger]
            text_laws::is_trimmed(path, inner) && text_laws::is_unslashed(
                inner,
                commit_message::clean_path(path),
            ),
{
    text_laws::lemma_trimmed(path);
    text_laws::lemma_unslashed(text::trimmed(path));
    assert(text_laws::is_trimmed(path, text::trimmed(path)));
}

/// Whether no name in a path is macOS metadata.
pub open spec fn is_plain(clean: Seq<char>) -> bool {
    forall|i: int|
        0 <= i < text::split(clean, '/').len() ==> !filter::apple_metadata(
            #[trigger] text::split(clean, '/')[i],
        )
}

/// Whether a file is one of the paths, without what stands around it.
pub open spec fn is_one_of(file: Seq<char>, paths: Seq<Seq<char>>) -> bool {
    exists|p: int| 0 <= p < paths.len() && commit_message::clean_path(#[trigger] paths[p]) == file
}

/// Every path that is not empty and has no macOS metadata in it is among the files, nothing else
/// is, and no file is there twice.
pub proof fn lemma_files(files: Seq<Seq<char>>, paths: Seq<Seq<char>>)
    requires
        commit_message::is_file_list(files, paths),
    ensures
        files.no_duplicates(),
        forall|p: int|
            0 <= p < paths.len() ==> {
                let clean = commit_message::clean_path(#[trigger] paths[p]);
                clean.len() > 0 && is_plain(clean) <==> files.contains(clean)
            },
        forall|f: int| 0 <= f < files.len() ==> is_one_of(#[trigger] files[f], paths),
        forall|f: int|
            0 <= f < files.len() ==> (#[trigger] files[f]).len() > 0 && is_plain(files[f]),
        forall|i: int, j: int|
            0 <= i < j < files.len() ==> sorting::lex_le(
                vstd::utf8::encode_utf8(#[trigger] files[i]),
                vstd::utf8::encode_utf8(#[trigger] files[j]),
            ),
{
    assert forall|f: int| 0 <= f < files.len() implies (#[trigger] files[f]).len() > 0 && is_plain(
        files[f],
    ) && is_one_of(files[f], paths) by {
        assert(files.contains(files[f]));
        let p = choose|p: int|
            0 <= p < paths.len() && commit_message::is_mentioned(#[trigger] paths[p])
                && commit_message::clean_path(paths[p]) == files[f];
        assert(commit_message::clean_path(paths[p]) == files[f]);
    }
    assert forall|p: int| 0 <= p < paths.len() implies {
        let clean = commit_message::clean_path(#[trigger] paths[p]);
        clean.len() > 0 && is_plain(clean) <==> files.contains(clean)
    } by {
        let clean = commit_message::clean_path(paths[p]);
        if clean.len() > 0 && is_plain(clean) {
            assert(commit_message::is_mentioned(paths[p]));
        }
        if files.contains(clean) {
            let f = choose|f: int| 0 <= f < files.len() && files[f] == clean;
            assert(files[f].len() > 0);
        }
    }
    assert forall|i: int, j: int| 0 <= i < files.len() && 0 <= j < files.len() && i != j implies
        files[i] != files[j] by {
        if i < j {
            assert(commit_message::text_before(files[i], files[j]));
        } else {
            assert(commit_message::text_before(files[j], files[i]));
        }
    }
}

// ---------------------------------------------------------------------------------------------
// The directories

/// Whether a directory is the top-level one of a file: what stands up to its first slash, or
/// `root/` where it has none.
pub open spec fn is_top(file: Seq<char>, dir: Seq<char>) -> bool {
    ||| exists|k: int| #[trigger] is_first_slash(file, k) && dir == file.take(k + 1)
    ||| !file.contains('/') && dir == "root/"@
}

/// Whether the first slash of a text is its `k`-th character.
pub open spec fn is_first_slash(s: Seq<char>, k: int) -> bool {
    &&& 0 <= k < s.len()
    &&& s[k] == '/'
    &&& forall|i: int| 0 <= i < k ==> #[trigger] s[i] != '/'
}

proof fn lemma_find(s: Seq<char>, from: int)
    requires
        0 <= from <= s.len(),
        forall|i: int| 0 <= i < from ==> #[trigger] s[i] != '/',
    ensures
        match commit_message::find_char(s, '/', from) {
            Some(k) => is_first_slash(s, k),
            None => !s.contains('/'),
        },
    decreases s.len() - from,
{
    if from < s.len() && s[from] != '/' {
        lemma_find(s, from + 1);
    }
}

/// The directory of a file is its top-level one.
pub proof fn lemma_top(file: Seq<char>, dir: Seq<char>)
    ensures
        commit_message::dir_of(file) == dir <==> is_top(file, dir),
{
    lemma_find(file, 0);
    match commit_message::find_char(file, '/', 0) {
        Some(at) => {
            assert(file.take(at) + seq!['/'] =~= file.take(at + 1));
            assert(file.contains('/'));
            if is_top(file, dir) {
                let k = choose|k: int| #[trigger]
                    is_first_slash(file, k) && dir == file.take(k + 1);
                assert(k == at) by {
                    if k < at {
                        assert(file[k] != '/');
                    } else if at < k {
                        assert(file[at] != '/');
                    }
                }
            }
        },
        None => {},
    }
}

/// The files of a directory.
pub open spec fn files_in(files: Seq<Seq<char>>, dir: Seq<char>) -> Seq<Seq<char>> {
    files.filter(|f: Seq<char>| is_top(f, dir))
}

proof fn lemma_count(files: Seq<Seq<char>>, dir: Seq<char>)
    ensures
        commit_message::count_in(files, dir) == files_in(files, dir).len(),
    decreases files.len(),
{
    reveal(Seq::filter);
    if files.len() > 0 {
        lemma_count(files.drop_last(), dir);
        lemma_top(files.last(), dir);
    }
}

/// What the counts of directories add up to.
pub open spec fn total(dirs: Seq<(Seq<char>, nat)>) -> nat
    decreases dirs.len(),
{
    if dirs.len() == 0 {
        0
    } else {
        total(dirs.drop_last()) + dirs.last().1
    }
}

spec fn counted(dirs: Seq<(Seq<char>, nat)>, files: Seq<Seq<char>>) -> nat
    decreases dirs.len(),
{
    if dirs.len() == 0 {
        0
    } else {
        counted(dirs.drop_last(), files) + commit_message::count_in(files, dirs.last().0)
    }
}

spec fn covering(dirs: Seq<(Seq<char>, nat)>, dir: Seq<char>) -> nat
    decreases dirs.len(),
{
    if dirs.len() == 0 {
        0
    } else {
        covering(dirs.drop_last(), dir) + if dirs.last().0 == dir {
            1nat
        } else {
            0
        }
    }
}

spec fn has_dir(dirs: Seq<(Seq<char>, nat)>, dir: Seq<char>) -> bool {
    exists|i: int| 0 <= i < dirs.len() && (#[trigger] dirs[i]).0 == dir
}

spec fn are_different(dirs: Seq<(Seq<char>, nat)>) -> bool {
    forall|i: int, j: int| 0 <= i < j < dirs.len() ==> (#[trigger] dirs[i]).0 != (#[trigger] dirs[j]).0
}

proof fn lemma_covered_once(dirs: Seq<(Seq<char>, nat)>, dir: Seq<char>)
    requires
        are_different(dirs),
    ensures
        covering(dirs, dir) == if has_dir(dirs, dir) {
            1nat
        } else {
            0
        },
    decreases dirs.len(),
{
    if dirs.len() > 0 {
        let front = dirs.drop_last();
        let last = dirs.len() - 1;
        assert forall|i: int, j: int| 0 <= i < j < front.len() implies (#[trigger] front[i]).0 != (
        #[trigger] front[j]).0 by {
            assert(front[i] == dirs[i] && front[j] == dirs[j]);
        }
        lemma_covered_once(front, dir);
        if dirs[last].0 == dir {
            assert forall|i: int| 0 <= i < front.len() implies (#[trigger] front[i]).0 != dir by {
                assert(front[i] == dirs[i]);
                assert(dirs[i].0 != dirs[last].0);
            }
        } else if has_dir(dirs, dir) {
            let i = choose|i: int| 0 <= i < dirs.len() && (#[trigger] dirs[i]).0 == dir;
            assert(front[i].0 == dir);
        } else {
            assert forall|i: int| 0 <= i < front.len() implies (#[trigger] front[i]).0 != dir by {
                assert(front[i] == dirs[i]);
            }
        }
    }
}

proof fn lemma_counted_more(dirs: Seq<(Seq<char>, nat)>, files: Seq<Seq<char>>)
    requires
        files.len() > 0,
    ensures
        counted(dirs, files) == counted(dirs, files.drop_last()) + covering(
            dirs,
            commit_message::dir_of(files.last()),
        ),
    decreases dirs.len(),
{
    if dirs.len() > 0 {
        lemma_counted_more(dirs.drop_last(), files);
    }
}

proof fn lemma_counted_none(dirs: Seq<(Seq<char>, nat)>)
    ensures
        counted(dirs, Seq::empty()) == 0,
    decreases dirs.len(),
{
    if dirs.len() > 0 {
        lemma_counted_none(dirs.drop_last());
    }
}

proof fn lemma_counted_all(dirs: Seq<(Seq<char>, nat)>, files: Seq<Seq<char>>)
    requires
        are_different(dirs),
        forall|f: int|
            0 <= f < files.len() ==> has_dir(dirs, commit_message::dir_of(#[trigger] files[f])),
    ensures
        counted(dirs, files) == files.len(),
    decreases files.len(),
{
    if files.len() == 0 {
        assert(files =~= Seq::<Seq<char>>::empty());
        lemma_counted_none(dirs);
    } else {
        let front = files.drop_last();
        assert forall|f: int| 0 <= f < front.len() implies has_dir(
            dirs,
            commit_message::dir_of(#[trigger] front[f]),
        ) by {
            assert(front[f] == files[f]);
        }
        lemma_counted_all(dirs, front);
        lemma_counted_more(dirs, files);
        lemma_covered_once(dirs, commit_message::dir_of(files.last()));
        let last = files.len() - 1;
        assert(files[last] == files.last());
    }
}

proof fn lemma_total(dirs: Seq<(Seq<char>, nat)>, files: Seq<Seq<char>>)
    requires
        forall|i: int|
            0 <= i < dirs.len() ==> (#[trigger] dirs[i]).1 == commit_message::count_in(
                files,
                dirs[i].0,
            ),
    ensures
        total(dirs) == counted(dirs, files),
    decreases dirs.len(),
{
    if dirs.len() > 0 {
        let front = dirs.drop_last();
        assert forall|i: int| 0 <= i < front.len() implies (#[trigger] front[i]).1
            == commit_message::count_in(files, front[i].0) by {
            assert(front[i] == dirs[i]);
        }
        lemma_total(front, files);
        assert(dirs[dirs.len() - 1].1 == commit_message::count_in(files, dirs.last().0));
    }
}

// ---------------------------------------------------------------------------------------------
// The text

/// The line about a directory with so many files.
pub open spec fn line_about(dir: Seq<char>, n: nat) -> Seq<char> {
    if n == 1 {
        "- "@ + dir + " (1 file)\n"@
    } else {
        "- "@ + dir + " ("@ + text::numeral(n, 10) + " files)\n"@
    }
}

/// Texts one behind the other.
pub open spec fn in_a_row(parts: Seq<Seq<char>>) -> Seq<char>
    decreases parts.len(),
{
    if parts.len() == 0 {
        Seq::empty()
    } else {
        parts[0] + in_a_row(parts.drop_first())
    }
}

/// Where the files are, in the first line.
pub open spec fn whereabouts(dirs: Seq<(Seq<char>, nat)>) -> Seq<char> {
    if dirs.len() == 1 {
        " files in "@ + dirs[0].0
    } else if dirs.len() == 2 {
        " files across "@ + dirs[0].0 + ", "@ + dirs[1].0
    } else if dirs.len() == 3 {
        " files across "@ + dirs[0].0 + ", "@ + dirs[1].0 + ", "@ + dirs[2].0
    } else {
        " files across "@ + dirs[0].0 + ", "@ + dirs[1].0 + " (and "@ + text::numeral(
            (dirs.len() - 2) as nat,
            10,
        ) + " other directories)"@
    }
}

/// Whether a message tells of directories: how many files each of them has, in a line of its own,
/// the one with the most first; each file is in one of them, and none is left out.
pub open spec fn tells_of(
    message: Seq<char>,
    files: Seq<Seq<char>>,
    dirs: Seq<(Seq<char>, nat)>,
) -> bool {
    &&& forall|i: int, j: int|
        0 <= i < j < dirs.len() ==> (#[trigger] dirs[i]).0 != (#[trigger] dirs[j]).0
            && dirs[i].1 >= dirs[j].1 && (dirs[i].1 == dirs[j].1 ==> sorting::lex_le(
            vstd::utf8::encode_utf8(dirs[i].0),
            vstd::utf8::encode_utf8(dirs[j].0),
        ))
    &&& forall|f: int|
        0 <= f < files.len() ==> exists|i: int|
            0 <= i < dirs.len() && is_top(#[trigger] files[f], (#[trigger] dirs[i]).0)
    &&& forall|i: int|
        0 <= i < dirs.len() ==> (#[trigger] dirs[i]).1 == files_in(files, dirs[i].0).len()
            && dirs[i].1 > 0
    &&& total(dirs) == files.len()
    &&& message == "Update "@ + text::numeral(files.len(), 10) + whereabouts(dirs)
        + "\n\nChanged directories:\n"@ + in_a_row(
        Seq::new(dirs.len(), |i: int| line_about(dirs[i].0, dirs[i].1)),
    )
}

proof fn lemma_row_push(parts: Seq<Seq<char>>, last: Seq<char>)
    ensures
        in_a_row(parts.push(last)) == in_a_row(parts) + last,
    decreases parts.len(),
{
    let all = parts.push(last);
    if parts.len() == 0 {
        assert(all.drop_first() =~= parts);
        assert(in_a_row(all) =~= in_a_row(parts) + last);
    } else {
        assert(all.drop_first() =~= parts.drop_first().push(last));
        lemma_row_push(parts.drop_first(), last);
        assert(in_a_row(all) =~= in_a_row(parts) + last);
    }
}

proof fn lemma_line(dir: (Seq<char>, nat))
    ensures
        commit_message::dir_line(dir) == line_about(dir.0, dir.1),
{
    if dir.1 == 1 {
        reveal_strlit(" (");
        reveal_strlit(" file)\n");
        reveal_strlit(" (1 file)\n");
        assert(text::numeral(1, 10) =~= seq!['1']);
        assert(" ("@ + seq!['1'] + " file)\n"@ =~= " (1 file)\n"@);
        assert(commit_message::dir_line(dir) =~= "- "@ + dir.0 + (" ("@ + seq!['1']
            + " file)\n"@));
    }
}

proof fn lemma_lines(dirs: Seq<(Seq<char>, nat)>)
    ensures
        commit_message::dir_lines(dirs) == in_a_row(
            Seq::new(dirs.len(), |i: int| line_about(dirs[i].0, dirs[i].1)),
        ),
    decreases dirs.len(),
{
    let lines = Seq::new(dirs.len(), |i: int| line_about(dirs[i].0, dirs[i].1));
    if dirs.len() > 0 {
        let front = dirs.drop_last();
        let before = Seq::new(front.len(), |i: int| line_about(front[i].0, front[i].1));
        lemma_lines(front);
        lemma_line(dirs.last());
        assert(lines =~= before.push(line_about(dirs.last().0, dirs.last().1)));
        lemma_row_push(before, line_about(dirs.last().0, dirs.last().1));
    }
}

proof fn lemma_subject(count: nat, dirs: Seq<(Seq<char>, nat)>)
    requires
        dirs.len() > 0,
    ensures
        commit_message::subject(count, dirs) == "Update "@ + text::numeral(count, 10) + whereabouts(
            dirs,
        ),
{
    let start = "Update "@ + text::numeral(count, 10);
    let names = commit_message::dir_names(dirs);
    if dirs.len() == 1 {
        assert(start + " files in "@ + dirs[0].0 =~= start + (" files in "@ + dirs[0].0));
    } else if dirs.len() == 2 {
        assert(names =~= seq![dirs[0].0].push(dirs[1].0));
        text_laws::lemma_joined(seq![dirs[0].0], dirs[1].0, ", "@);
        text_laws::lemma_joined(seq![dirs[0].0], dirs[0].0, ", "@);
        assert(commit_message::subject(count, dirs) =~= start + whereabouts(dirs));
    } else if dirs.len() == 3 {
        let two = seq![dirs[0].0].push(dirs[1].0);
        assert(names =~= two.push(dirs[2].0));
        text_laws::lemma_joined(seq![dirs[0].0], dirs[0].0, ", "@);
        text_laws::lemma_joined(seq![dirs[0].0], dirs[1].0, ", "@);
        text_laws::lemma_joined(two, dirs[2].0, ", "@);
        assert(commit_message::subject(count, dirs) =~= start + whereabouts(dirs));
    } else {
        let others = (dirs.len() - 2) as nat;
        reveal_strlit(" (and ");
        reveal_strlit(" other directories");
        reveal_strlit(" other directories)");
        reveal_strlit(")");
        assert(" other directories"@ + ")"@ =~= " other directories)"@);
        assert(commit_message::subject(count, dirs) =~= start + (" files across "@ + dirs[0].0
            + ", "@ + dirs[1].0 + " (and "@ + text::numeral(others, 10) + (" other directories"@
            + ")"@)));
    }
}

/// The message about more than three files tells of all their directories, and of how many files
/// each has.
pub proof fn lemma_many_files(message: Seq<char>, files: Seq<Seq<char>>)
    requires
        files.len() > 3,
        commit_message::is_message(message, files),
    ensures
        exists|dirs: Seq<(Seq<char>, nat)>| #[trigger] tells_of(message, files, dirs),
{
    let dirs = choose|dirs: Seq<(Seq<char>, nat)>| #[trigger]
        commit_message::is_dir_list(dirs, files) && message == commit_message::subject(
            files.len(),
            dirs,
        ) + "\n\nChanged directories:\n"@ + commit_message::dir_lines(dirs);
    assert forall|i: int, j: int| 0 <= i < j < dirs.len() implies (#[trigger] dirs[i]).0 != (
    #[trigger] dirs[j]).0 && dirs[i].1 >= dirs[j].1 && (dirs[i].1 == dirs[j].1 ==> sorting::lex_le(
        vstd::utf8::encode_utf8(dirs[i].0),
        vstd::utf8::encode_utf8(dirs[j].0),
    )) by {
        assert(commit_message::dir_before(dirs[i], dirs[j]));
        assert(dirs[i].1 == commit_message::count_in(files, dirs[i].0));
        assert(dirs[j].1 == commit_message::count_in(files, dirs[j].0));
    }
    assert forall|f: int| 0 <= f < files.len() implies exists|i: int|
        0 <= i < dirs.len() && is_top(#[trigger] files[f], (#[trigger] dirs[i]).0) by {
        let i = choose|i: int|
            0 <= i < dirs.len() && (#[trigger] dirs[i]).0 == commit_message::dir_of(files[f]);
        lemma_top(files[f], dirs[i].0);
    }
    assert forall|i: int| 0 <= i < dirs.len() implies (#[trigger] dirs[i]).1 == files_in(
        files,
        dirs[i].0,
    ).len() && dirs[i].1 > 0 by {
        lemma_count(files, dirs[i].0);
    }
    assert forall|f: int| 0 <= f < files.len() implies has_dir(
        dirs,
        commit_message::dir_of(#[trigger] files[f]),
    ) by {
        let i = choose|i: int|
            0 <= i < dirs.len() && (#[trigger] dirs[i]).0 == commit_message::dir_of(files[f]);
    }
    lemma_counted_all(dirs, files);
    lemma_total(dirs, files);
    assert(dirs.len() > 0) by {
        if dirs.len() == 0 {
            assert(total(dirs) == 0);
        }
    }
    lemma_subject(files.len(), dirs);
    lemma_lines(dirs);
    assert(tells_of(message, files, dirs));
}

/// The message about up to three files names each of them.
pub proof fn lemma_few_files(message: Seq<char>, files: Seq<Seq<char>>)
    requires
        commit_message::is_message(message, files),
    ensures
        files.len() == 0 ==> message == "Empty commit: no files changed"@,
        files.len() == 1 ==> message == "Update "@ + files[0],
        files.len() == 2 ==> message == "Update "@ + files[0] + ", "@ + files[1],
        files.len() == 3 ==> message == "Update "@ + files[0] + ", "@ + files[1] + ", "@ + files[2],
{
    if files.len() > 0 {
        let one = seq![files[0]];
        text_laws::lemma_joined(one, files[0], ", "@);
        if files.len() == 1 {
            assert(files =~= one);
        } else if files.len() == 2 {
            assert(files =~= one.push(files[1]));
            text_laws::lemma_joined(one, files[1], ", "@);
            assert(message =~= "Update "@ + files[0] + ", "@ + files[1]);
        } else if files.len() == 3 {
            let two = one.push(files[1]);
            assert(files =~= two.push(files[2]));
            text_laws::lemma_joined(one, files[1], ", "@);
            text_laws::lemma_joined(two, files[2], ", "@);
            assert(message =~= "Update "@ + files[0] + ", "@ + files[1] + ", "@ + files[2]);
        }
    }
}

} // verus!
