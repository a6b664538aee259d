//! Asset paths.
//!
//! A path is a string of segments joined by `/`. The text before the last
//! separator is the parent, the text after it is the file name, and the text
//! after the last dot of a file name (when that dot is not its first character)
//! is the extension.

use vstd::prelude::*;

verus! {

/// The separator between the segments of a path.
pub const SEPARATOR: char = '/';

/// Whether `i` is the position of the last occurrence of `c` in `s`.
pub open spec fn is_last_index_of(s: Seq<char>, c: char, i: int) -> bool {
    &&& 0 <= i < s.len()
    &&& s[i] == c
    &&& forall|j: int| i < j < s.len() ==> s[j] != c
}

/// The position of the last occurrence of `c` in `s`, or `-1` when `c` does
/// not occur.
pub open spec fn last_index_of(s: Seq<char>, c: char) -> int
    decreases s.len(),
{
    if s.len() == 0 {
        -1
    } else if s.last() == c {
        s.len() - 1
    } else {
        last_index_of(s.drop_last(), c)
    }
}

/// `last_index_of` finds the last occurrence, and answers `-1` exactly when
/// there is none.
pub proof fn lemma_last_index_of(s: Seq<char>, c: char)
    ensures
        -1 <= last_index_of(s, c) < s.len(),
        last_index_of(s, c) >= 0 ==> is_last_index_of(s, c, last_index_of(s, c)),
        last_index_of(s, c) == -1 ==> forall|j: int| 0 <= j < s.len() ==> s[j] != c,
    decreases s.len(),
{
    if s.len() > 0 && s.last() != c {
        let t = s.drop_last();
        lemma_last_index_of(t, c);
        assert forall|j: int| 0 <= j < t.len() implies t[j] == s[j] by {}
        let i = last_index_of(t, c);
        if i >= 0 {
            assert forall|j: int| i < j < s.len() implies s[j] != c by {
                if j < t.len() {
                    assert(t[j] != c);
                }
            }
        } else {
            assert forall|j: int| 0 <= j < s.len() implies s[j] != c by {
                if j < t.len() {
                    assert(t[j] != c);
                }
            }
        }
    }
}

/// A position that satisfies `is_last_index_of` is the one `last_index_of`
/// computes.
pub proof fn lemma_last_index_unique(s: Seq<char>, c: char, i: int)
    requires
        is_last_index_of(s, c, i),
    ensures
        last_index_of(s, c) == i,
{
    lemma_last_index_of(s, c);
}

/// The path one level up: everything before the last separator. A path
/// without a separator has no parent.
pub open spec fn parent_of(path: Seq<char>) -> Option<Seq<char>> {
    let i = last_index_of(path, SEPARATOR);
    if i >= 0 {
        Some(path.subrange(0, i))
    } else {
        None
    }
}

/// The last segment of a path: everything after the last separator, or the
/// whole path when it has none.
pub open spec fn file_name_of(path: Seq<char>) -> Seq<char> {
    path.subrange(last_index_of(path, SEPARATOR) + 1, path.len() as int)
}

/// The extension of a path: what follows the last dot of its file name. A
/// file name without a dot, or whose only dot is its first character, has no
/// extension.
pub open spec fn extension_of(path: Seq<char>) -> Option<Seq<char>> {
    let name = file_name_of(path);
    let dot = last_index_of(name, '.');
    if dot > 0 {
        Some(name.subrange(dot + 1, name.len() as int))
    } else {
        None
    }
}

/// `parent + "/" + name`, the path of the entry `name` inside `parent`.
pub open spec fn child_of(parent: Seq<char>, name: Seq<char>) -> Seq<char> {
    parent + seq![SEPARATOR] + name
}

/// Joining a parent and a name without separators and taking the result
/// apart again gives back the two parts.
pub proof fn lemma_child_of_parts(parent: Seq<char>, name: Seq<char>)
    requires
        !name.contains(SEPARATOR),
    ensures
        parent_of(child_of(parent, name)) == Some(parent),
        file_name_of(child_of(parent, name)) == name,
{
    let p = child_of(parent, name);
    let i = parent.len() as int;
    assert(p[i] == SEPARATOR);
    assert forall|j: int| i < j < p.len() implies p[j] != SEPARATOR by {
        assert(p[j] == name[j - i - 1]);
        assert(name.contains(name[j - i - 1]));
    }
    lemma_last_index_unique(p, SEPARATOR, i);
    assert(p.subrange(0, i) =~= parent);
    assert(p.subrange(i + 1, p.len() as int) =~= name);
}

/// A path with a parent is its parent, a separator and its file name.
pub proof fn lemma_parent_and_name(path: Seq<char>)
    requires
        parent_of(path) is Some,
    ensures
        path == child_of(parent_of(path)->0, file_name_of(path)),
        !file_name_of(path).contains(SEPARATOR),
        parent_of(path)->0.len() < path.len(),
{
    lemma_last_index_of(path, SEPARATOR);
    let i = last_index_of(path, SEPARATOR);
    let name = file_name_of(path);
    assert(path =~= child_of(path.subrange(0, i), name));
    assert forall|k: int| 0 <= k < name.len() implies name[k] != SEPARATOR by {
        assert(name[k] == path[i + 1 + k]);
    }
}

/// Finds the last occurrence of `c` in `s`, in one pass over the string.
pub fn find_last(s: &str, c: char) -> (found: Option<usize>)
    ensures
        match found {
            Some(i) => is_last_index_of(s@, c, i as int),
            None => !s@.contains(c),
        },
        match found {
            Some(i) => last_index_of(s@, c) == i,
            None => last_index_of(s@, c) == -1,
        },
{
    let n = s.unicode_len();
    let mut found: Option<usize> = None;
    let mut i: usize = 0;
    for ch in it: s.chars()
        invariant
            n == s@.len(),
            it.seq() == s@,
            i == it.index(),
            i <= n,
            match found {
                Some(at) => is_last_index_of(s@.take(i as int), c, at as int),
                None => !s@.take(i as int).contains(c),
            },
    {
        assert(s@.take(i + 1).last() == ch);
        if ch == c {
            found = Some(i);
        }
        i = i + 1;
    }
    proof {
        assert(s@.take(i as int) =~= s@);
        lemma_last_index_of(s@, c);
        match found {
            Some(at) => {
                lemma_last_index_unique(s@, c, at as int);
            },
            None => {
                if last_index_of(s@, c) >= 0 {
                    assert(s@.contains(s@[last_index_of(s@, c)]));
                }
            },
        }
    }
    found
}

/// The parent of `path`, if it has one.
pub fn parent(path: &str) -> (r: Option<String>)
    ensures
        r is Some <==> parent_of(path@) is Some,
        r is Some ==> r->0@ == parent_of(path@)->0,
{
    match find_last(path, SEPARATOR) {
        Some(i) => Some(path.substring_char(0, i).to_owned()),
        None => None,
    }
}

/// The file name of `path`.
pub fn file_name(path: &str) -> (name: String)
    ensures
        name@ == file_name_of(path@),
{
    let n = path.unicode_len();
    match find_last(path, SEPARATOR) {
        Some(i) => path.substring_char(i + 1, n).to_owned(),
        None => {
            assert(path@.subrange(0, path@.len() as int) =~= path@);
            path.to_owned()
        },
    }
}

/// The extension of `path`, if it has one.
pub fn extension(path: &str) -> (r: Option<String>)
    ensures
        r is Some <==> extension_of(path@) is Some,
        r is Some ==> r->0@ == extension_of(path@)->0,
{
    let name = file_name(path);
    let n = name.as_str().unicode_len();
    match find_last(name.as_str(), '.') {
        Some(dot) => {
            if dot > 0 {
                Some(name.as_str().substring_char(dot + 1, n).to_owned())
            } else {
                None
            }
        },
        None => None,
    }
}

} // verus!
