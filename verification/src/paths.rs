//! The parts of paths. A path of parts that are separated by single slashes is taken apart in the same
//! way on every operating system, if it ends with a name that is no single dot and does not begin with
//! two; of other paths nothing is said.

use vstd::prelude::*;

verus! {

/// A character that separates the parts of a path on some operating system, or ends a prefix.
pub open spec fn separates(c: char) -> bool {
    c == '/' || c == '\\' || c == ':'
}

/// No character of the text separates parts of a path.
pub open spec fn is_whole(text: Seq<char>) -> bool {
    forall|i: int| 0 <= i < text.len() ==> !separates(#[trigger] text[i])
}

/// The text is no single dot and does not begin with two dots.
pub open spec fn is_no_step(text: Seq<char>) -> bool {
    text.len() > 0 && (text[0] == '.' ==> text.len() > 1 && text[1] != '.')
}

/// One part of a path: a name that is no single dot and does not begin with two.
pub open spec fn is_part(name: Seq<char>) -> bool {
    is_no_step(name) && is_whole(name)
}

/// A path whose parts have single slashes between them, and perhaps one before the first part. No part
/// but the first is a single dot.
pub open spec fn is_plain(path: Seq<char>) -> bool {
    &&& path.len() > 0
    &&& forall|i: int| 0 <= i < path.len() ==> #[trigger] path[i] != '\\' && path[i] != ':'
    &&& forall|i: int|
        0 <= i < path.len() && #[trigger] path[i] == '/' ==> i + 1 < path.len() && path[i + 1] != '/'
            && (path[i + 1] == '.' ==> i + 2 < path.len() && path[i + 2] != '/')
}

/// A plain path whose last part is no single dot and does not begin with two.
pub open spec fn is_simple(path: Seq<char>) -> bool {
    is_plain(path) && is_no_step(last_part(path))
}

/// Where the part begins that reaches up to `n`: after the last slash before it.
pub open spec fn part_start(path: Seq<char>, n: int) -> int
    decreases n,
{
    if n <= 0 {
        0
    } else if path[n - 1] == '/' {
        n
    } else {
        part_start(path, n - 1)
    }
}

/// Where the last part of a path begins.
pub open spec fn name_start(path: Seq<char>) -> int {
    part_start(path, path.len() as int)
}

/// The last part of a path.
pub open spec fn last_part(path: Seq<char>) -> Seq<char> {
    path.skip(name_start(path))
}

/// The path without its last part.
pub open spec fn directory(path: Seq<char>) -> Seq<char> {
    let start = name_start(path);
    if start <= 1 {
        path.take(start)
    } else {
        path.take(start - 1)
    }
}

/// Where the extension of a name begins, dot included: at the last of the dots before `n`, or at the
/// end if there is none.
pub open spec fn dot_before(name: Seq<char>, n: int) -> int
    decreases n,
{
    if n <= 0 {
        name.len() as int
    } else if name[n - 1] == '.' {
        n - 1
    } else {
        dot_before(name, n - 1)
    }
}

/// The last part of a path without its extension. A dot at its beginning begins no extension.
pub open spec fn stem(path: Seq<char>) -> Seq<char> {
    let name = last_part(path);
    let dot = dot_before(name, name.len() as int);
    if dot == 0 {
        name
    } else {
        name.take(dot)
    }
}

/// The path without the extension of its last part.
pub open spec fn without_extension(path: Seq<char>) -> Seq<char> {
    path.take(name_start(path)) + stem(path)
}

/// The path with another extension.
pub open spec fn extended(path: Seq<char>, extension: Seq<char>) -> Seq<char> {
    if extension.len() == 0 {
        without_extension(path)
    } else {
        without_extension(path) + "."@ + extension
    }
}

/// The path is that of a name in a directory. Which of the separators of the operating system stands
/// between them is left open.
pub open spec fn lies_in(path: Seq<char>, directory: Seq<char>, name: Seq<char>) -> bool {
    if directory.len() == 0 {
        path == name
    } else if directory.last() == '/' {
        path == directory + name
    } else {
        &&& path.len() == directory.len() + 1 + name.len()
        &&& path.take(directory.len() as int) == directory
        &&& path.skip(directory.len() as int + 1) == name
    }
}

/// A directory that a simple path can have.
pub open spec fn is_directory(path: Seq<char>) -> bool {
    path.len() == 0 || path == seq!['/'] || is_plain(path)
}

/// A path that has the same parts on every operating system: only slashes separate them, and it does
/// not begin with two.
pub open spec fn is_portable(path: Seq<char>) -> bool {
    &&& forall|i: int| 0 <= i < path.len() ==> #[trigger] path[i] != '\\' && path[i] != ':'
    &&& path.len() >= 2 ==> path[0] != '/' || path[1] != '/'
}

/// The path up to `n` without slashes, and single dots behind them, at its end.
pub open spec fn trimmed(path: Seq<char>, n: int) -> int
    decreases n,
{
    if n >= 1 && path[n - 1] == '/' {
        trimmed(path, n - 1)
    } else if n >= 2 && path[n - 1] == '.' && path[n - 2] == '/' {
        trimmed(path, n - 1)
    } else {
        n
    }
}

/// The last part of a path that may end with slashes, or with single dots behind them.
pub open spec fn file_part(path: Seq<char>) -> Seq<char> {
    let n = trimmed(path, path.len() as int);
    path.subrange(part_start(path, n), n)
}

/// The path ends with the name of a file: its last part is there, and is neither one dot nor two.
pub open spec fn has_name(path: Seq<char>) -> bool {
    let name = file_part(path);
    name.len() > 0 && name != seq!['.'] && name != seq!['.', '.']
}

/// Calls `std::path::Path::file_name`, as text. The contract says that the file name of a portable path
/// is its last part, whatever slashes or single dots follow it, and that there is none if there is no
/// such part, or if it is one dot or two.
#[verifier::external_body]
pub(crate) fn file_name(path: &str) -> (r: Option<String>)
    ensures
        is_portable(path@) ==> (r is Some <==> has_name(path@)),
        is_portable(path@) && has_name(path@) ==> r is Some && r->Some_0@ == file_part(path@),
{
    std::path::Path::new(path).file_name().and_then(|s| s.to_str()).map(|s| s.to_string())
}

/// Calls `std::path::Path::file_stem`, as text. The contract says that the stem of a simple path is its
/// last part up to the last dot in it, unless that is its first character.
#[verifier::external_body]
pub(crate) fn file_stem(path: &str) -> (r: Option<String>)
    ensures
        is_simple(path@) ==> r is Some && r->Some_0@ == stem(path@),
{
    std::path::Path::new(path).file_stem().and_then(|s| s.to_str()).map(|s| s.to_string())
}

/// Calls `std::path::Path::parent`, as text. The contract says that the parent of a simple path is what
/// stands before its last part.
#[verifier::external_body]
pub(crate) fn parent(path: &str) -> (r: Option<String>)
    ensures
        is_simple(path@) ==> r is Some && r->Some_0@ == directory(path@),
{
    std::path::Path::new(path).parent().and_then(|p| p.to_str()).map(|s| s.to_string())
}

/// Calls `std::path::Path::join`, as text. The contract says that a directory that is extended by a
/// name stays in front of it, with at most a separator between them.
#[verifier::external_body]
pub(crate) fn join(directory: &str, name: &str) -> (r: String)
    ensures
        is_directory(directory@) && is_part(name@) ==> lies_in(r@, directory@, name@),
{
    std::path::Path::new(directory).join(name).to_string_lossy().to_string()
}

/// Calls `std::path::Path::with_extension`, as text. It panics if the extension holds a separator. The
/// contract says that the extension of a simple path is replaced, or taken away if the new one is
/// empty.
#[verifier::external_body]
pub(crate) fn with_extension(path: &str, extension: &str) -> (r: String)
    requires
        is_whole(extension@),
    ensures
        is_simple(path@) ==> r@ == extended(path@, extension@),
{
    std::path::Path::new(path).with_extension(extension).to_string_lossy().to_string()
}

pub proof fn lemma_part_start(path: Seq<char>, n: int)
    requires
        0 <= n <= path.len(),
    ensures
        0 <= part_start(path, n) <= n,
        part_start(path, n) > 0 ==> path[part_start(path, n) - 1] == '/',
        forall|i: int| part_start(path, n) <= i < n ==> #[trigger] path[i] != '/',
    decreases n,
{
    if n > 0 && path[n - 1] != '/' {
        lemma_part_start(path, n - 1);
    }
}

pub proof fn lemma_dot_before(name: Seq<char>, n: int)
    requires
        0 <= n <= name.len(),
    ensures
        0 <= dot_before(name, n) <= name.len(),
        dot_before(name, n) < name.len() ==> name[dot_before(name, n)] == '.',
        dot_before(name, n) < n ==> forall|i: int|
            dot_before(name, n) < i < n ==> #[trigger] name[i] != '.',
        dot_before(name, n) == name.len() ==> forall|i: int|
            0 <= i < n ==> #[trigger] name[i] != '.',
    decreases n,
{
    if n > 0 && name[n - 1] != '.' {
        lemma_dot_before(name, n - 1);
    }
}

/// The start of the last part is where a slash is followed by no other.
pub proof fn lemma_start_is(path: Seq<char>, n: int, start: int)
    requires
        0 <= start <= n <= path.len(),
        start > 0 ==> path[start - 1] == '/',
        forall|i: int| start <= i < n ==> #[trigger] path[i] != '/',
    ensures
        part_start(path, n) == start,
    decreases n,
{
    if n > start {
        lemma_start_is(path, n - 1, start);
    }
}

/// The last part of a simple path is one part, its stem too, and its directory is one.
pub proof fn lemma_simple(path: Seq<char>)
    requires
        is_simple(path),
    ensures
        0 <= name_start(path) < path.len(),
        is_part(last_part(path)),
        is_part(stem(path)),
        is_directory(directory(path)),
        is_simple(without_extension(path)),
        name_start(without_extension(path)) == name_start(path),
        without_extension(path) == path.take(name_start(path) + stem(path).len()),
{
    let start = name_start(path);
    let n = path.len() as int;
    lemma_part_start(path, n);
    if start == n {
        assert(path[n - 1] == '/');
    }
    let name = last_part(path);
    if start > 0 {
        assert(path[start - 1] == '/');
    }
    assert(name[0] == path[start]);
    assert forall|i: int| 0 <= i < name.len() implies !separates(#[trigger] name[i]) by {
        assert(name[i] == path[start + i]);
    }
    let s = stem(path);
    let k = s.len() as int;
    lemma_dot_before(name, name.len() as int);
    assert(k > 0);
    assert(s =~= name.take(k));
    assert(s[0] == name[0]);
    if name[0] == '.' {
        assert(name[1] != '.');
        assert(k > 1);
        assert(s[1] == name[1]);
    }
    assert forall|i: int| 0 <= i < s.len() implies !separates(#[trigger] s[i]) by {
        assert(s[i] == name[i]);
    }
    let bare = without_extension(path);
    assert(bare =~= path.take(start + k));
    assert forall|i: int| 0 <= i < bare.len() implies #[trigger] bare[i] != '\\' && bare[i]
        != ':' by {
        assert(bare[i] == path[i]);
    }
    assert forall|i: int| 0 <= i < bare.len() && #[trigger] bare[i] == '/' implies i + 1
        < bare.len() && bare[i + 1] != '/' && (bare[i + 1] == '.' ==> i + 2 < bare.len() && bare[i
        + 2] != '/') by {
        assert(path[i] == '/');
        assert(i < start);
        assert(bare[i + 1] == path[i + 1]);
        if bare[i + 1] == '.' {
            if i + 1 == start {
                assert(name[0] == '.');
            }
            assert(bare[i + 2] == path[i + 2]);
        }
    }
    assert forall|i: int| start <= i < bare.len() implies #[trigger] bare[i] != '/' by {
        assert(bare[i] == path[i]);
    }
    lemma_start_is(bare, bare.len() as int, start);
    assert(last_part(bare) =~= s);
    let d = directory(path);
    if start == 1 {
        assert(d =~= seq!['/']);
    } else if start > 1 {
        assert forall|i: int| 0 <= i < d.len() implies #[trigger] d[i] != '\\' && d[i] != ':' by {
            assert(d[i] == path[i]);
        }
        assert(path[start - 1] == '/');
        assert forall|i: int| 0 <= i < d.len() && #[trigger] d[i] == '/' implies i + 1 < d.len()
            && d[i + 1] != '/' && (d[i + 1] == '.' ==> i + 2 < d.len() && d[i + 2] != '/') by {
            assert(path[i] == '/');
            if i + 1 == d.len() {
                assert(path[i + 1] == '/');
            } else {
                assert(d[i + 1] == path[i + 1]);
                if d[i + 1] == '.' {
                    assert(path[i + 2] != '/');
                    assert(i + 2 != start - 1);
                    assert(d[i + 2] == path[i + 2]);
                }
            }
        }
    }
}

/// A simple path is portable, and its name is its last part.
pub proof fn law_simple_paths_have_names(path: Seq<char>)
    requires
        is_simple(path),
    ensures
        is_portable(path),
        has_name(path),
        file_part(path) == last_part(path),
{
    lemma_simple(path);
    let n = path.len() as int;
    if path[n - 1] == '/' {
        assert(n < path.len());
    }
    if n >= 2 && path[n - 1] == '.' && path[n - 2] == '/' {
        assert(n - 2 + 2 < path.len());
    }
    assert(trimmed(path, n) == n);
    assert(file_part(path) =~= last_part(path));
    let name = last_part(path);
    assert(name != seq!['.']) by {
        if name == seq!['.'] {
            assert(name[0] == '.');
        }
    }
    assert(name != seq!['.', '.']) by {
        if name == seq!['.', '.'] {
            assert(name[0] == '.');
            assert(name[1] == '.');
        }
    }
    if n >= 2 && path[0] == '/' {
        assert(path[0int + 1] != '/');
    }
}

/// A name is its own last part and has no directory; behind a directory and a slash it is the last part,
/// and the directory is the directory.
pub proof fn law_last_part(dir: Seq<char>, name: Seq<char>)
    requires
        is_plain(dir),
        is_part(name),
    ensures
        is_simple(name),
        last_part(name) == name,
        directory(name).len() == 0,
        is_simple(dir + seq!['/'] + name),
        last_part(dir + seq!['/'] + name) == name,
        directory(dir + seq!['/'] + name) == dir,
        last_part(seq!['/'] + name) == name,
        directory(seq!['/'] + name) == seq!['/'],
{
    lemma_start_is(name, name.len() as int, 0);
    assert(last_part(name) =~= name);
    let path = dir + seq!['/'] + name;
    let start = dir.len() as int + 1;
    assert forall|i: int| start <= i < path.len() implies #[trigger] path[i] != '/' by {
        assert(path[i] == name[i - start]);
    }
    lemma_start_is(path, path.len() as int, start);
    assert(last_part(path) =~= name);
    assert(directory(path) =~= dir);
    assert forall|i: int| 0 <= i < path.len() implies #[trigger] path[i] != '\\' && path[i]
        != ':' by {
        if i < dir.len() {
            assert(path[i] == dir[i]);
        } else if i >= start {
            assert(path[i] == name[i - start]);
        }
    }
    assert forall|i: int| 0 <= i < path.len() && #[trigger] path[i] == '/' implies i + 1
        < path.len() && path[i + 1] != '/' && (path[i + 1] == '.' ==> i + 2 < path.len() && path[i
        + 2] != '/') by {
        if i < dir.len() {
            assert(dir[i] == '/');
            assert(path[i + 1] == dir[i + 1]);
            if path[i + 1] == '.' {
                assert(path[i + 2] == dir[i + 2]);
            }
        } else if i == dir.len() {
            assert(path[i + 1] == name[0]);
            if name[0] == '.' {
                assert(path[i + 2] == name[1]);
            }
        } else {
            assert(path[i] == name[i - start]);
        }
    }
    let top = seq!['/'] + name;
    assert forall|i: int| 1 <= i < top.len() implies #[trigger] top[i] != '/' by {
        assert(top[i] == name[i - 1]);
    }
    lemma_start_is(top, top.len() as int, 1);
    assert(last_part(top) =~= name);
    assert(directory(top) =~= seq!['/']);
}

/// The stem of a name with an extension is what stands before its last dot.
pub proof fn law_stem(name: Seq<char>, extension: Seq<char>)
    requires
        is_part(name),
        is_whole(extension),
        forall|i: int| 0 <= i < extension.len() ==> #[trigger] extension[i] != '.',
    ensures
        stem(name + seq!['.'] + extension) == name,
        extended(name + seq!['.'] + extension, seq![]) == name,
{
    let path = name + seq!['.'] + extension;
    let n = path.len() as int;
    assert forall|i: int| 0 <= i < n implies #[trigger] path[i] != '/' by {
        if i < name.len() {
            assert(path[i] == name[i]);
        } else if i > name.len() {
            assert(path[i] == extension[i - name.len() - 1]);
        }
    }
    lemma_start_is(path, n, 0);
    assert(last_part(path) =~= path);
    lemma_dot_before(path, n);
    let k = dot_before(path, n);
    assert(path[name.len() as int] == '.');
    if k > name.len() {
        if k < n {
            assert(path[k] == extension[k - name.len() - 1]);
        }
    }
    assert(stem(path) =~= name);
    assert(extended(path, seq![]) =~= name);
}

/// In one directory, different names have different paths.
pub proof fn law_names_tell_paths(
    directory: Seq<char>,
    a: Seq<char>,
    b: Seq<char>,
    name_a: Seq<char>,
    name_b: Seq<char>,
)
    requires
        lies_in(a, directory, name_a),
        lies_in(b, directory, name_b),
        a == b,
    ensures
        name_a == name_b,
{
    if directory.len() > 0 && directory.last() == '/' {
        assert((directory + name_a).skip(directory.len() as int) =~= name_a);
        assert((directory + name_b).skip(directory.len() as int) =~= name_b);
    }
}

/// A simple path is that of its last part in its directory.
pub proof fn law_path_lies_in_directory(path: Seq<char>)
    requires
        is_simple(path),
    ensures
        lies_in(path, directory(path), last_part(path)),
{
    let start = name_start(path);
    let n = path.len() as int;
    lemma_part_start(path, n);
    if start == 0 {
        assert(path.skip(0) =~= path);
    } else if start == 1 {
        assert(directory(path)[0] == '/');
        assert(directory(path) + last_part(path) =~= path);
    } else {
        let dir = directory(path);
        assert(path[start - 1] == '/');
        assert(dir.last() == path[start - 2]);
        if path[start - 2] == '/' {
            assert(path[start - 2 + 1] != '/');
        }
        assert(path.take(dir.len() as int) =~= dir);
    }
}

/// The extension of PAR2 files, whatever the case of its letters.
pub open spec fn spells_par2(extension: Seq<char>) -> bool {
    &&& extension.len() == 4
    &&& extension[0] == 'p' || extension[0] == 'P'
    &&& extension[1] == 'a' || extension[1] == 'A'
    &&& extension[2] == 'r' || extension[2] == 'R'
    &&& extension[3] == '2'
}

/// Whether files with this extension are PAR2 files. The case of its letters does not matter.
pub fn is_par2_extension(extension: &str) -> (r: bool)
    ensures
        r == spells_par2(extension@),
{
    if extension.unicode_len() != 4 {
        return false;
    }
    let p: char = extension.get_char(0);
    let a: char = extension.get_char(1);
    let r: char = extension.get_char(2);
    (p == 'p' || p == 'P') && (a == 'a' || a == 'A') && (r == 'r' || r == 'R')
        && extension.get_char(3) == '2'
}

/// Whether files with this extension, or without one, may be files of a set under another name: all but
/// those whose extension is written "par2" in small letters.
pub fn is_data_extension(extension: Option<&str>) -> (r: bool)
    ensures
        r == (extension is None || extension->Some_0@ != "par2"@),
{
    match extension {
        Some(text) => {
            proof {
                reveal_strlit("par2");
            }
            let same: bool = text.unicode_len() == 4 && text.get_char(0) == 'p' && text.get_char(1)
                == 'a' && text.get_char(2) == 'r' && text.get_char(3) == '2';
            proof {
                if same {
                    assert(text@ =~= "par2"@);
                }
            }
            !same
        },
        None => true,
    }
}

/// The small letter for a letter of the extension.
pub open spec fn in_small_letters(c: char) -> char {
    if c == 'P' {
        'p'
    } else if c == 'A' {
        'a'
    } else if c == 'R' {
        'r'
    } else {
        c
    }
}

/// An extension is that of PAR2 files just if it is `par2` in small letters.
pub proof fn law_extensions_in_small_letters(extension: Seq<char>)
    ensures
        spells_par2(extension) <==> Seq::new(
            extension.len(),
            |i: int| in_small_letters(extension[i]),
        ) == seq!['p', 'a', 'r', '2'],
{
    let small = Seq::new(extension.len(), |i: int| in_small_letters(extension[i]));
    if spells_par2(extension) {
        assert(small =~= seq!['p', 'a', 'r', '2']);
    }
    if small == seq!['p', 'a', 'r', '2'] {
        assert(extension.len() == small.len());
        assert(small[0] == 'p' && small[1] == 'a' && small[2] == 'r' && small[3] == '2');
        assert(in_small_letters(extension[0]) == 'p');
        assert(in_small_letters(extension[1]) == 'a');
        assert(in_small_letters(extension[2]) == 'r');
        assert(in_small_letters(extension[3]) == '2');
    }
}

} // verus!
