//! What a server's list of references says of the commit that is wanted, word by word.

use vstd::prelude::*;

use crate::git::smart_http;
use crate::text;

verus! {

/// Whether a line is about a reference: that is its second word.
pub open spec fn is_about(line: Seq<char>, refname: Seq<char>) -> bool {
    text::words(line).len() >= 2 && text::words(line)[1] == refname
}

/// Whether no line is about a reference.
pub open spec fn none_about(lines: Seq<Seq<char>>, refname: Seq<char>) -> bool {
    forall|i: int| 0 <= i < lines.len() ==> !is_about(#[trigger] lines[i], refname)
}

/// Whether a line is about a reference, and none behind it is.
pub open spec fn is_last_about(lines: Seq<Seq<char>>, i: int, refname: Seq<char>) -> bool {
    &&& 0 <= i < lines.len()
    &&& is_about(lines[i], refname)
    &&& forall|j: int| i < j < lines.len() ==> !is_about(#[trigger] lines[j], refname)
}

/// Whether a line is about one of the two main branches, and none behind it is about either.
pub open spec fn is_last_main(lines: Seq<Seq<char>>, i: int, name: Seq<char>) -> bool {
    &&& name == "main"@ || name == "master"@
    &&& 0 <= i < lines.len()
    &&& is_about(lines[i], "refs/heads/"@ + name)
    &&& forall|j: int|
        i < j < lines.len() ==> !is_about(#[trigger] lines[j], "refs/heads/main"@) && !is_about(
            lines[j],
            "refs/heads/master"@,
        )
}

/// Whether a commit is what a line about a tag stands for: what the first word behind the
/// reference names that starts with `peeled:`, or else the first word.
pub open spec fn is_tag_commit(line: Seq<char>, oid: Seq<char>) -> bool {
    let words = text::words(line);
    ||| exists|k: int| #[trigger] is_first_peeled(words, k) && words[k] == "peeled:"@ + oid
    ||| (forall|k: int| 2 <= k < words.len() ==> !is_peeled(#[trigger] words[k])) && oid == words[0]
}

/// Whether a word starts with `peeled:`.
pub open spec fn is_peeled(word: Seq<char>) -> bool {
    exists|oid: Seq<char>| word == #[trigger] ("peeled:"@ + oid)
}

/// Whether a word is the first behind the reference to start so.
pub open spec fn is_first_peeled(words: Seq<Seq<char>>, k: int) -> bool {
    &&& 2 <= k < words.len()
    &&& forall|j: int| 2 <= j < k ==> !is_peeled(#[trigger] words[j])
}

proof fn lemma_last(lines: Seq<Seq<char>>, i: int, refname: Seq<char>)
    requires
        is_last_about(lines, i, refname),
    ensures
        smart_http::ref_of(lines, refname) == smart_http::line_ref(lines[i], refname),
    decreases lines.len(),
{
    let last = lines.len() - 1;
    if i < last {
        assert(!is_about(lines[last], refname));
        let front = lines.drop_last();
        assert(front[i] == lines[i]);
        assert forall|j: int| i < j < front.len() implies !is_about(#[trigger] front[j], refname) by {
            assert(front[j] == lines[j]);
        }
        lemma_last(front, i, refname);
    }
}

proof fn lemma_none(lines: Seq<Seq<char>>, refname: Seq<char>)
    requires
        none_about(lines, refname),
    ensures
        smart_http::ref_of(lines, refname) is None,
    decreases lines.len(),
{
    if lines.len() > 0 {
        assert(!is_about(lines[lines.len() - 1], refname));
        let front = lines.drop_last();
        assert forall|j: int| 0 <= j < front.len() implies !is_about(#[trigger] front[j], refname) by {
            assert(front[j] == lines[j]);
        }
        lemma_none(front, refname);
    }
}

proof fn lemma_main(lines: Seq<Seq<char>>, i: int, name: Seq<char>)
    requires
        is_last_main(lines, i, name),
    ensures
        smart_http::main_of(lines) == Some((text::words(lines[i])[0], name)),
    decreases lines.len(),
{
    lemma_names();
    let last = lines.len() - 1;
    if i < last {
        assert(!is_about(lines[last], "refs/heads/main"@));
        let front = lines.drop_last();
        assert(front[i] == lines[i]);
        assert forall|j: int| i < j < front.len() implies !is_about(
            #[trigger] front[j],
            "refs/heads/main"@,
        ) && !is_about(front[j], "refs/heads/master"@) by {
            assert(front[j] == lines[j]);
        }
        lemma_main(front, i, name);
    }
}

proof fn lemma_no_main(lines: Seq<Seq<char>>)
    requires
        none_about(lines, "refs/heads/main"@),
        none_about(lines, "refs/heads/master"@),
    ensures
        smart_http::main_of(lines) is None,
    decreases lines.len(),
{
    if lines.len() > 0 {
        assert(!is_about(lines[lines.len() - 1], "refs/heads/main"@));
        assert(!is_about(lines[lines.len() - 1], "refs/heads/master"@));
        let front = lines.drop_last();
        assert forall|j: int| 0 <= j < front.len() implies !is_about(
            #[trigger] front[j],
            "refs/heads/main"@,
        ) && !is_about(front[j], "refs/heads/master"@) by {
            assert(front[j] == lines[j]);
        }
        lemma_no_main(front);
    }
}

proof fn lemma_names()
    ensures
        "refs/heads/"@ + "main"@ == "refs/heads/main"@,
        "refs/heads/"@ + "master"@ == "refs/heads/master"@,
        "refs/heads/main"@ != "refs/heads/master"@,
        !text::starts_with("HEAD"@, "refs/tags/"@),
        forall|name: Seq<char>|
            !text::starts_with(#[trigger] ("refs/heads/"@ + name), "refs/tags/"@),
        forall|name: Seq<char>|
            text::starts_with(#[trigger] ("refs/tags/"@ + name), "refs/tags/"@),
{
    reveal_strlit("refs/heads/");
    reveal_strlit("refs/tags/");
    reveal_strlit("HEAD");
    reveal_strlit("main");
    reveal_strlit("master");
    reveal_strlit("refs/heads/main");
    reveal_strlit("refs/heads/master");
    assert("refs/heads/"@ + "main"@ =~= "refs/heads/main"@);
    assert("refs/heads/"@ + "master"@ =~= "refs/heads/master"@);
    assert("refs/heads/main"@.len() != "refs/heads/master"@.len());
    assert forall|name: Seq<char>| !text::starts_with(
        #[trigger] ("refs/heads/"@ + name),
        "refs/tags/"@,
    ) by {
        let s = "refs/heads/"@ + name;
        if text::starts_with(s, "refs/tags/"@) {
            assert(s.take("refs/tags/"@.len() as int)[5] == s[5]);
            assert(s[5] == 'h');
        }
    }
    assert forall|name: Seq<char>| text::starts_with(
        #[trigger] ("refs/tags/"@ + name),
        "refs/tags/"@,
    ) by {
        let s = "refs/tags/"@ + name;
        assert(s.take("refs/tags/"@.len() as int) =~= "refs/tags/"@);
    }
}

proof fn lemma_peeled_word(word: Seq<char>)
    ensures
        text::starts_with(word, "peeled:"@) <==> is_peeled(word),
        text::starts_with(word, "peeled:"@) ==> word == "peeled:"@ + word.skip(
            "peeled:"@.len() as int,
        ),
{
    let p = "peeled:"@;
    if text::starts_with(word, p) {
        assert(word =~= word.take(p.len() as int) + word.skip(p.len() as int));
        assert(word == p + word.skip(p.len() as int));
    }
    if is_peeled(word) {
        let oid = choose|oid: Seq<char>| word == #[trigger] (p + oid);
        assert(word.take(p.len() as int) =~= p);
    }
}

proof fn lemma_peeled(words: Seq<Seq<char>>, i: int) -> (k: int)
    requires
        2 <= i,
        forall|j: int| 2 <= j < i && j < words.len() ==> !is_peeled(#[trigger] words[j]),
    ensures
        match smart_http::peeled(words, i) {
            Some(oid) => is_first_peeled(words, k) && words[k] == "peeled:"@ + oid,
            None => forall|j: int| 2 <= j < words.len() ==> !is_peeled(#[trigger] words[j]),
        },
    decreases words.len() - i,
{
    if i >= words.len() {
        i
    } else {
        lemma_peeled_word(words[i]);
        if text::starts_with(words[i], "peeled:"@) {
            i
        } else {
            lemma_peeled(words, i + 1)
        }
    }
}

/// A branch that is wanted and listed is given by the last line about it, and about no other
/// reference: the commit is the line's first word.
pub proof fn lemma_branch(lines: Seq<Seq<char>>, name: Seq<char>, i: int)
    requires
        is_last_about(lines, i, "refs/heads/"@ + name),
    ensures
        smart_http::resolved(lines, Some(name)) == Some((text::words(lines[i])[0], name)),
{
    lemma_names();
    lemma_last(lines, i, "refs/heads/"@ + name);
}

/// A tag that is wanted and listed, where no branch has its name, is given by the last line about
/// it.
pub proof fn lemma_tag(lines: Seq<Seq<char>>, name: Seq<char>, i: int)
    requires
        none_about(lines, "refs/heads/"@ + name),
        is_last_about(lines, i, "refs/tags/"@ + name),
    ensures
        smart_http::resolved(lines, Some(name)) matches Some((oid, n)) && n == name
            && is_tag_commit(lines[i], oid),
{
    lemma_names();
    lemma_none(lines, "refs/heads/"@ + name);
    lemma_last(lines, i, "refs/tags/"@ + name);
    let k = lemma_peeled(text::words(lines[i]), 2);
}

/// Where neither a branch nor a tag has the name that is wanted, the commit is the head's: the
/// first word of the last line about the head. Where no head is listed, there is none.
pub proof fn lemma_head_instead(lines: Seq<Seq<char>>, name: Seq<char>, i: int)
    requires
        none_about(lines, "refs/heads/"@ + name),
        none_about(lines, "refs/tags/"@ + name),
    ensures
        is_last_about(lines, i, "HEAD"@) ==> smart_http::resolved(lines, Some(name)) == Some(
            (text::words(lines[i])[0], name),
        ),
        none_about(lines, "HEAD"@) ==> smart_http::resolved(lines, Some(name)) is None,
{
    lemma_names();
    lemma_none(lines, "refs/heads/"@ + name);
    lemma_none(lines, "refs/tags/"@ + name);
    if is_last_about(lines, i, "HEAD"@) {
        lemma_last(lines, i, "HEAD"@);
    }
    if none_about(lines, "HEAD"@) {
        lemma_none(lines, "HEAD"@);
    }
}

/// Where no name is wanted, the commit is the first word of the last line about the head. It goes
/// by the name of the main branch that is listed last, where that has the same commit, by `HEAD`
/// where it has another, and by `master` where no main branch is listed.
pub proof fn lemma_head(lines: Seq<Seq<char>>, i: int, j: int, name: Seq<char>)
    requires
        is_last_about(lines, i, "HEAD"@),
    ensures
        is_last_main(lines, j, name) ==> smart_http::resolved(lines, None) == Some(
            (
                text::words(lines[i])[0],
                if text::words(lines[j])[0] == text::words(lines[i])[0] {
                    name
                } else {
                    "HEAD"@
                },
            ),
        ),
        none_about(lines, "refs/heads/main"@) && none_about(lines, "refs/heads/master"@)
            ==> smart_http::resolved(lines, None) == Some(
            (text::words(lines[i])[0], "master"@),
        ),
{
    lemma_names();
    lemma_last(lines, i, "HEAD"@);
    if is_last_main(lines, j, name) {
        lemma_main(lines, j, name);
    }
    if none_about(lines, "refs/heads/main"@) && none_about(lines, "refs/heads/master"@) {
        lemma_no_main(lines);
    }
}

/// Where neither a name is wanted nor a head listed, it is the main branch that is listed last;
/// where there is none, nothing.
pub proof fn lemma_main_instead(lines: Seq<Seq<char>>, j: int, name: Seq<char>)
    requires
        none_about(lines, "HEAD"@),
    ensures
        is_last_main(lines, j, name) ==> smart_http::resolved(lines, None) == Some(
            (text::words(lines[j])[0], name),
        ),
        none_about(lines, "refs/heads/main"@) && none_about(lines, "refs/heads/master"@)
            ==> smart_http::resolved(lines, None) is None,
{
    lemma_none(lines, "HEAD"@);
    if is_last_main(lines, j, name) {
        lemma_main(lines, j, name);
    }
    if none_about(lines, "refs/heads/main"@) && none_about(lines, "refs/heads/master"@) {
        lemma_no_main(lines);
    }
}

// ---------------------------------------------------------------------------------------------
// Other references

/// Lines with one more among them.
pub open spec fn with_line(lines: Seq<Seq<char>>, at: int, line: Seq<char>) -> Seq<Seq<char>> {
    lines.take(at).push(line) + lines.skip(at)
}

proof fn lemma_ref_aside(lines: Seq<Seq<char>>, at: int, line: Seq<char>, refname: Seq<char>)
    requires
        0 <= at <= lines.len(),
        !is_about(line, refname),
    ensures
        smart_http::ref_of(with_line(lines, at, line), refname) == smart_http::ref_of(
            lines,
            refname,
        ),
    decreases lines.len(),
{
    let more = with_line(lines, at, line);
    if at == lines.len() {
        assert(more.drop_last() =~= lines);
        assert(more.last() == line);
    } else {
        assert(more.last() == lines.last());
        assert(more.drop_last() =~= with_line(lines.drop_last(), at, line));
        lemma_ref_aside(lines.drop_last(), at, line, refname);
    }
}

proof fn lemma_main_aside(lines: Seq<Seq<char>>, at: int, line: Seq<char>)
    requires
        0 <= at <= lines.len(),
        !is_about(line, "refs/heads/main"@),
        !is_about(line, "refs/heads/master"@),
    ensures
        smart_http::main_of(with_line(lines, at, line)) == smart_http::main_of(lines),
    decreases lines.len(),
{
    let more = with_line(lines, at, line);
    if at == lines.len() {
        assert(more.drop_last() =~= lines);
        assert(more.last() == line);
    } else {
        assert(more.last() == lines.last());
        assert(more.drop_last() =~= with_line(lines.drop_last(), at, line));
        lemma_main_aside(lines.drop_last(), at, line);
    }
}

/// A line about another reference changes nothing, wherever it stands.
pub proof fn lemma_others_aside(
    lines: Seq<Seq<char>>,
    at: int,
    line: Seq<char>,
    wanted: Option<Seq<char>>,
)
    requires
        0 <= at <= lines.len(),
        !is_about(line, "HEAD"@),
        match wanted {
            Some(name) => !is_about(line, "refs/heads/"@ + name) && !is_about(
                line,
                "refs/tags/"@ + name,
            ),
            None => !is_about(line, "refs/heads/main"@) && !is_about(line, "refs/heads/master"@),
        },
    ensures
        smart_http::resolved(with_line(lines, at, line), wanted) == smart_http::resolved(
            lines,
            wanted,
        ),
{
    lemma_ref_aside(lines, at, line, "HEAD"@);
    match wanted {
        Some(name) => {
            lemma_ref_aside(lines, at, line, "refs/heads/"@ + name);
            lemma_ref_aside(lines, at, line, "refs/tags/"@ + name);
        },
        None => {
            lemma_main_aside(lines, at, line);
        },
    }
}

} // verus!
