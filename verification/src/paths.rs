//! Paths as texts.
//!
//! What separates the components of a path depends on the platform: `/` on Unix, and both `/` and `\`
//! on Windows, where a path may begin with the letter of a drive besides. What is said here of a path
//! holds on both.
use vstd::prelude::*;

verus! {

/// The character separates components on some platform.
pub open spec fn is_separator(c: char) -> bool {
    c == '/' || c == '\\'
}

/// The character separates components. `windows` tells whether it is so on Windows or on Unix.
pub open spec fn separates(c: char, windows: bool) -> bool {
    c == '/' || windows && c == '\\'
}

/// The place of the last separator in a path; negative if it has none.
pub open spec fn last_separator(path: Seq<char>, windows: bool) -> int
    decreases path.len(),
{
    if path.len() == 0 {
        -1
    } else if separates(path.last(), windows) {
        path.len() - 1
    } else {
        last_separator(path.drop_last(), windows)
    }
}

/// The text is the letter of a drive with its colon.
pub open spec fn is_drive(text: Seq<char>) -> bool {
    &&& text.len() == 2
    &&& 'A' <= text[0] <= 'Z' || 'a' <= text[0] <= 'z'
    &&& text[1] == ':'
}

/// The directory of the file at a path: what stands before the last separator. The root of a file
/// system, or of a drive on Windows, keeps its separator. The directory of a path without a separator
/// is the empty path.
pub open spec fn directory(path: Seq<char>, windows: bool) -> Seq<char> {
    let n = last_separator(path, windows);
    if n < 0 {
        Seq::empty()
    } else if n == 0 || windows && is_drive(path.take(n)) {
        path.take(n + 1)
    } else {
        path.take(n)
    }
}

/// The text ends in a component that is a single dot, which stands for the directory before it.
pub open spec fn ends_in_dot(text: Seq<char>) -> bool {
    &&& text.len() > 0
    &&& text.last() == '.'
    &&& text.len() > 1 ==> is_separator(text[text.len() - 2]) || text[text.len() - 2] == ':'
}

/// One separator and no more stands before the final component, and no single dot before it.
pub open spec fn has_clean_end(path: Seq<char>, windows: bool) -> bool {
    let n = last_separator(path, windows);
    n > 0 ==> !is_separator(path[n - 1]) && !ends_in_dot(path.take(n))
}

/// The path is that of a file in an ordinary form. It does not begin with two separators, as the name
/// of a place in a network does. It ends in the name of the file, with one separator before it, and
/// holds a colon only behind the letter of a drive, with a separator after it.
pub open spec fn is_file_path(path: Seq<char>) -> bool {
    &&& path.len() > 0
    &&& !is_separator(path.last())
    &&& !ends_in_dot(path)
    &&& path.len() > 1 ==> !(is_separator(path[0]) && is_separator(path[1]))
    &&& forall|i: int|
        0 <= i < path.len() && #[trigger] path[i] == ':' ==> i == 1 && is_drive(path.take(2))
            && path.len() > 2 && is_separator(path[2])
    &&& has_clean_end(path, false)
    &&& has_clean_end(path, true)
}

proof fn lemma_last_separator(dir: Seq<char>, c: char, file: Seq<char>, windows: bool)
    requires
        forall|i: int| 0 <= i < file.len() ==> !separates(#[trigger] file[i], windows),
    ensures
        last_separator(dir.push(c) + file, windows) == if separates(c, windows) {
            dir.len() as int
        } else {
            last_separator(dir, windows)
        },
    decreases file.len(),
{
    let path = dir.push(c) + file;
    if file.len() == 0 {
        assert(path.drop_last() =~= dir);
    } else {
        assert(path.last() == file.last());
        assert(path.drop_last() =~= dir.push(c) + file.drop_last());
        lemma_last_separator(dir, c, file.drop_last(), windows);
    }
}

/// The directory of a file is the one that it was placed in: where a separator and the name of a file
/// stand behind a directory, that directory is what stands before the last separator.
pub proof fn law_directory_of_a_file(dir: Seq<char>, c: char, file: Seq<char>, windows: bool)
    requires
        separates(c, windows),
        dir.len() > 0,
        !(windows && is_drive(dir)),
        forall|i: int| 0 <= i < file.len() ==> !separates(#[trigger] file[i], windows),
    ensures
        last_separator(dir.push(c) + file, windows) == dir.len(),
        directory(dir.push(c) + file, windows) == dir,
{
    lemma_last_separator(dir, c, file, windows);
    assert((dir.push(c) + file).take(dir.len() as int) =~= dir);
}

/// A path that is written with `/` alone, and does not begin with a drive, has the same directory on
/// every platform.
pub proof fn law_directory_is_the_same_everywhere(path: Seq<char>)
    requires
        !path.contains('\\'),
        !path.contains(':'),
    ensures
        directory(path, false) == directory(path, true),
{
    lemma_same_last_separator(path);
    let n = last_separator(path, true);
    if n >= 2 && is_drive(path.take(n)) {
        assert(path[1] == ':');
    }
}

proof fn lemma_same_last_separator(path: Seq<char>)
    requires
        !path.contains('\\'),
    ensures
        last_separator(path, false) == last_separator(path, true),
        last_separator(path, true) < path.len(),
    decreases path.len(),
{
    if path.len() > 0 {
        assert(path[path.len() - 1] != '\\');
        assert forall|i: int| 0 <= i < path.len() - 1 implies path.drop_last()[i] != '\\' by {
            assert(path[i] != '\\');
        }
        lemma_same_last_separator(path.drop_last());
    }
}

/// Calls `std::path::Path::parent`: what it gives is the path without its final component, so a
/// proper beginning of the path. The path of a file in an ordinary form has its directory for its
/// parent, by what separates components on Unix or by what does on Windows; the root `/` has none.
/// Nothing more is said of other paths, such as those of places in a network.
#[verifier::external_body]
pub(crate) fn parent_text(path: &str) -> (r: Option<&str>)
    ensures
        r matches Some(p) ==> p@.len() < path@.len() && p@ == path@.take(p@.len() as int),
        is_file_path(path@) ==> r is Some && (r->0@ == directory(path@, false) || r->0@
            == directory(path@, true)),
        path@ == seq!['/'] ==> r is None,
{
    std::path::Path::new(path).parent().and_then(std::path::Path::to_str)
}

/// The path begins with `\\?\`, after which Windows takes every character for itself.
pub open spec fn is_verbatim(path: Seq<char>) -> bool {
    path.len() >= 4 && path.take(4) == seq!['\\', '\\', '?', '\\']
}

/// The path is relative: it does not begin with a separator, and no drive stands in it.
pub open spec fn is_relative(path: Seq<char>) -> bool {
    path.len() > 0 && !is_separator(path[0]) && !path.contains(':')
}

/// The text is the path `below` in the directory `dir`. A separator stands between them, unless `dir`
/// is empty or ends in a separator or a drive.
pub open spec fn is_below(text: Seq<char>, dir: Seq<char>, below: Seq<char>) -> bool {
    if dir.len() == 0 || dir.last() == '/' {
        text == dir + below
    } else {
        ||| text == dir.push('/') + below
        ||| text == dir.push('\\') + below
        ||| (dir.last() == '\\' || dir.last() == ':') && text == dir + below
    }
}

/// Calls `std::path::Path::join`: what it gives for a relative path is that path in the given
/// directory. Which separator is put between them depends on the platform. Nothing is said of a
/// directory that begins with `\\?\`, which is brought into another form on Windows.
#[verifier::external_body]
pub(crate) fn join_text(dir: &str, below: &str) -> (r: String)
    ensures
        is_relative(below@) && !is_verbatim(dir@) ==> is_below(r@, dir@, below@),
{
    std::path::Path::new(dir).join(below).to_string_lossy().into_owned()
}

/// The directory of a file in the root of a file system is the root, that of a file in the root of a
/// drive is that root on Windows, and that of a bare file name is the empty path.
pub proof fn law_directory_of_a_file_in_a_root(dir: Seq<char>, c: char, file: Seq<char>, windows: bool)
    requires
        separates(c, windows),
        forall|i: int| 0 <= i < file.len() ==> !separates(#[trigger] file[i], windows),
    ensures
        dir.len() == 0 ==> directory(dir.push(c) + file, windows) == seq![c],
        windows && is_drive(dir) ==> directory(dir.push(c) + file, windows) == dir.push(c),
        directory(file, windows) == Seq::<char>::empty(),
{
    lemma_last_separator(dir, c, file, windows);
    let path = dir.push(c) + file;
    assert(path.take(dir.len() as int) =~= dir);
    assert(path.take(dir.len() as int + 1) =~= dir.push(c));
    if dir.len() == 0 {
        assert(dir.push(c) =~= seq![c]);
    }
    lemma_no_separator(file, windows);
}

proof fn lemma_no_separator(path: Seq<char>, windows: bool)
    requires
        forall|i: int| 0 <= i < path.len() ==> !separates(#[trigger] path[i], windows),
    ensures
        last_separator(path, windows) < 0,
    decreases path.len(),
{
    if path.len() > 0 {
        assert(!separates(path[path.len() - 1], windows));
        lemma_no_separator(path.drop_last(), windows);
    }
}

/// What separates components: `/` everywhere, `\` on Windows alone, and nothing else anywhere.
pub proof fn law_separators(c: char)
    ensures
        separates(c, false) <==> c == '/',
        separates(c, true) <==> c == '/' || c == '\\',
        is_separator(c) <==> c == '/' || c == '\\',
{
}

/// The directory of a path is a beginning of it that is shorter than the path, unless the path ends in
/// a separator; no separator stands behind it but the one directly after it, if any.
pub proof fn law_directory_is_cut_at_the_last_separator(path: Seq<char>, windows: bool)
    requires
        path.len() > 0,
    ensures
        directory(path, windows).len() <= path.len(),
        directory(path, windows) == path.take(directory(path, windows).len() as int),
        forall|i: int|
            directory(path, windows).len() < i < path.len() ==> !separates(
                #[trigger] path[i],
                windows,
            ),
{
    lemma_behind_last_separator(path, windows);
    let n = last_separator(path, windows);
    if n < 0 {
        assert(path.take(0) =~= Seq::<char>::empty());
    }
}

proof fn lemma_behind_last_separator(path: Seq<char>, windows: bool)
    ensures
        -1 <= last_separator(path, windows) < path.len(),
        forall|i: int|
            last_separator(path, windows) < i < path.len() ==> !separates(
                #[trigger] path[i],
                windows,
            ),
    decreases path.len(),
{
    if path.len() > 0 && !separates(path.last(), windows) {
        let before = path.drop_last();
        lemma_behind_last_separator(before, windows);
        assert forall|i: int| last_separator(path, windows) < i < path.len() implies !separates(
            #[trigger] path[i],
            windows,
        ) by {
            if i < before.len() {
                assert(before[i] == path[i]);
            }
        }
    }
}

/// An executable in a directory has a path in an ordinary form, however long it is: where `dir` does
/// not begin with two separators, does not end in one or in a component that is a single dot, and
/// holds no colon but the one behind the letter of a drive, a separator and the name of a file behind
/// it make such a path. So do a separator and the name of a file, and the bare name. Before a
/// backslash, the same has to hold of what stands before each `/`, where the name of the file begins
/// on Unix.
pub proof fn law_files_have_ordinary_paths(dir: Seq<char>, c: char, file: Seq<char>)
    requires
        c == '/' || c == '\\',
        file.len() > 0,
        forall|i: int|
            0 <= i < file.len() ==> #[trigger] file[i] != '/' && file[i] != '\\' && file[i] != ':',
        file != seq!['.'],
        dir.len() > 0 ==> dir.last() != '/' && dir.last() != '\\',
        dir.len() > 0 && dir.last() == '.' ==> dir.len() > 1 && dir[dir.len() - 2] != '/' && dir[
        dir.len() - 2] != '\\' && dir[dir.len() - 2] != ':',
        dir.len() > 1 ==> !((dir[0] == '/' || dir[0] == '\\') && (dir[1] == '/' || dir[1] == '\\')),
        forall|i: int|
            0 <= i < dir.len() && #[trigger] dir[i] == ':' ==> i == 1 && ('A' <= dir[0] <= 'Z' || 'a'
                <= dir[0] <= 'z') && (dir.len() > 2 ==> dir[2] == '/' || dir[2] == '\\'),
        c == '\\' ==> forall|i: int|
            1 <= i < dir.len() && #[trigger] dir[i] == '/' ==> dir[i - 1] != '/' && dir[i - 1] != '\\'
                && dir[i - 1] != '.',
    ensures
        is_file_path(dir.push(c) + file),
        is_file_path(file),
{
    let path = dir.push(c) + file;
    assert(path.last() == file.last());
    lemma_ordinary_file(file);
    assert(!ends_in_dot(path)) by {
        if file.len() == 1 {
            assert(file =~= seq![file[0]]);
        } else {
            assert(path[path.len() - 2] == file[file.len() - 2]);
        }
    }
    assert forall|i: int| 0 <= i < path.len() && #[trigger] path[i] == ':' implies i == 1
        && is_drive(path.take(2)) && path.len() > 2 && is_separator(path[2]) by {
        if i < dir.len() {
            assert(dir[i] == ':');
        } else if i > dir.len() {
            assert(file[i - dir.len() - 1] == ':');
        }
    }
    lemma_last_separator(dir, c, file, true);
    assert(path.take(dir.len() as int) =~= dir);
    assert(has_clean_end(path, true));
    lemma_last_separator(dir, c, file, false);
    if c == '\\' {
        lemma_behind_last_separator(dir, false);
        let n = last_separator(dir, false);
        if n > 0 {
            lemma_is_separator(dir, false);
            assert(dir[n] == '/');
            assert(path[n - 1] == dir[n - 1]);
            assert(path.take(n).last() == dir[n - 1]);
        }
    }
    assert(has_clean_end(path, false));
}

proof fn lemma_is_separator(path: Seq<char>, windows: bool)
    requires
        last_separator(path, windows) >= 0,
    ensures
        last_separator(path, windows) < path.len(),
        separates(path[last_separator(path, windows)], windows),
    decreases path.len(),
{
    if path.len() > 0 && !separates(path.last(), windows) {
        lemma_is_separator(path.drop_last(), windows);
    }
}

proof fn lemma_ordinary_file(file: Seq<char>)
    requires
        file.len() > 0,
        forall|i: int|
            0 <= i < file.len() ==> #[trigger] file[i] != '/' && file[i] != '\\' && file[i] != ':',
        file != seq!['.'],
    ensures
        is_file_path(file),
{
    lemma_no_separator(file, true);
    lemma_no_separator(file, false);
    assert(!is_separator(file[file.len() - 1]));
    if file.len() == 1 {
        assert(file =~= seq![file[0]]);
    } else {
        assert(file[file.len() - 2] != ':');
    }
}

/// A path below a directory begins with the directory and ends in the path that was put below it. At
/// most one character stands between them, which is a separator; one does, unless the directory is
/// empty or ends in a separator or a colon.
pub proof fn law_path_below_a_directory(text: Seq<char>, dir: Seq<char>, below: Seq<char>)
    requires
        is_below(text, dir, below),
    ensures
        ({
            let between = text.len() - dir.len() - below.len();
            &&& 0 <= between <= 1
            &&& text.take(dir.len() as int) == dir
            &&& text.skip(text.len() - below.len()) == below
            &&& between == 1 ==> text[dir.len() as int] == '/' || text[dir.len() as int] == '\\'
            &&& between == 0 ==> dir.len() == 0 || dir.last() == '/' || dir.last() == '\\'
                || dir.last() == ':'
            &&& between == 1 ==> dir.len() > 0 && dir.last() != '/'
        }),
{
    assert(text.take(dir.len() as int) =~= dir);
    assert(text.skip(text.len() - below.len()) =~= below);
}

/// Only a path that begins with two backslashes, a question mark and a backslash is taken as it is.
pub proof fn law_verbatim_paths(path: Seq<char>)
    requires
        is_verbatim(path),
    ensures
        path.len() >= 4,
        path[0] == '\\' && path[1] == '\\' && path[2] == '?' && path[3] == '\\',
{
    assert(path[0] == path.take(4)[0]);
    assert(path[1] == path.take(4)[1]);
    assert(path[2] == path.take(4)[2]);
    assert(path[3] == path.take(4)[3]);
}

} // verus!
