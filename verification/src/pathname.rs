//! Path strings: segments between separators, parent and leaf, joining.
//!
//! A path is a sequence of characters in which `/` separates segments.
//! Nothing is canonicalized: consecutive separators give empty segments,
//! and it is for the reader of the segments to skip them.

use vstd::prelude::*;
use vstd::string::StringExecFns;

verus! {

/// The separator between the segments of a path.
pub open spec fn is_separator(c: char) -> bool {
    c == '/'
}

/// The pieces of `s` between its separators, in order. A string with `k`
/// separators has `k + 1` pieces, some of them possibly empty.
pub open spec fn split(s: Seq<char>) -> Seq<Seq<char>>
    decreases s.len(),
{
    if s.len() == 0 {
        seq![Seq::empty()]
    } else {
        let before = split(s.drop_last());
        if is_separator(s.last()) {
            before.push(Seq::empty())
        } else {
            before.drop_last().push(before.last().push(s.last()))
        }
    }
}

/// The segments that a traversal of `s` walks: every piece but the first,
/// which stands before the leading separator and names the root.
pub open spec fn components(s: Seq<char>) -> Seq<Seq<char>> {
    split(s).drop_first()
}

/// The names of the non-empty segments among `segments`, in order: the key
/// of the node that a traversal of `segments` ends at.
pub open spec fn non_empty(segments: Seq<Seq<char>>) -> Seq<Seq<char>>
    decreases segments.len(),
{
    if segments.len() == 0 {
        Seq::empty()
    } else {
        let init = non_empty(segments.drop_last());
        if segments.last().len() > 0 {
            init.push(segments.last())
        } else {
            init
        }
    }
}

/// The names, from the root down, of the nodes that the path `s` passes.
pub open spec fn node_key(s: Seq<char>) -> Seq<Seq<char>> {
    non_empty(components(s))
}

/// Index of the last separator in `s`, or -1 where it has none.
pub open spec fn last_separator(s: Seq<char>) -> int
    decreases s.len(),
{
    if s.len() == 0 {
        -1
    } else if is_separator(s.last()) {
        s.len() - 1
    } else {
        last_separator(s.drop_last())
    }
}

/// True for the paths that have a parent: those that hold a separator and
/// are not the root path `/` itself.
pub open spec fn has_parent(s: Seq<char>) -> bool {
    last_separator(s) >= 0 && s.len() != 1
}

/// What stands before the last separator of `s`, with the root path in place
/// of nothing; none where `s` has no parent.
pub open spec fn parent_of(s: Seq<char>) -> Option<Seq<char>> {
    let k = last_separator(s);
    if !has_parent(s) {
        None
    } else if k == 0 {
        Some(seq!['/'])
    } else {
        Some(s.subrange(0, k))
    }
}

/// What stands after the last separator of `s`; all of `s` where it has no
/// parent.
pub open spec fn file_name_of(s: Seq<char>) -> Seq<char> {
    if has_parent(s) {
        s.subrange(last_separator(s) + 1, s.len() as int)
    } else {
        s
    }
}

/// The key of the node that creating a file at `s` makes or finds: the leaf
/// of `s` under the node that its parent leads to.
pub open spec fn file_key(s: Seq<char>) -> Seq<Seq<char>> {
    node_key(parent_of(s)->0).push(file_name_of(s))
}

/// The path that a listing of the directory `dir` gives its child `name`.
pub open spec fn child_path(dir: Seq<char>, name: Seq<char>) -> Seq<char> {
    dir + seq!['/'] + name
}

/// True where `path` is the path of one of the children `names` of the
/// directory `dir`.
pub open spec fn is_child_path(path: Seq<char>, dir: Seq<char>, names: Set<Seq<char>>) -> bool {
    exists|name: Seq<char>| names.contains(name) && path == #[trigger] child_path(dir, name)
}

/// True where `paths` lists the children `names` of the directory `dir`:
/// each child once, by its path, and nothing else.
pub open spec fn is_listing(paths: Seq<Seq<char>>, dir: Seq<char>, names: Set<Seq<char>>) -> bool {
    &&& paths.no_duplicates()
    &&& forall|i: int| 0 <= i < paths.len() ==> is_child_path(#[trigger] paths[i], dir, names)
    &&& forall|name: Seq<char>|
        names.contains(name) ==> paths.contains(#[trigger] child_path(dir, name))
}

/// Children with different names have different paths.
pub proof fn lemma_child_path_injective(dir: Seq<char>, a: Seq<char>, b: Seq<char>)
    requires
        child_path(dir, a) == child_path(dir, b),
    ensures
        a == b,
{
    let start = dir.len() + 1;
    assert(a =~= child_path(dir, a).subrange(start as int, child_path(dir, a).len() as int));
}

/// `base` extended by `segment`, with exactly one separator put between them
/// unless `base` already ends in one.
pub open spec fn joined(base: Seq<char>, segment: Seq<char>) -> Seq<char> {
    if base.len() > 0 && is_separator(base.last()) {
        base + segment
    } else {
        base + seq!['/'] + segment
    }
}

/// `last_separator` finds a separator with none after it, or reports that
/// there is none at all.
pub proof fn lemma_last_separator(s: Seq<char>)
    ensures
        -1 <= last_separator(s) < s.len(),
        last_separator(s) >= 0 ==> is_separator(s[last_separator(s)]),
        forall|j: int| last_separator(s) < j < s.len() ==> !is_separator(#[trigger] s[j]),
    decreases s.len(),
{
    if s.len() > 0 && !is_separator(s.last()) {
        let init = s.drop_last();
        lemma_last_separator(init);
        assert forall|j: int| last_separator(s) < j < s.len() implies !is_separator(
            #[trigger] s[j],
        ) by {
            if j < init.len() {
                assert(s[j] == init[j]);
            }
        }
    }
}

/// An index that holds a separator with none after it is the last separator.
pub proof fn lemma_last_separator_unique(s: Seq<char>, k: int)
    requires
        -1 <= k < s.len(),
        k >= 0 ==> is_separator(s[k]),
        forall|j: int| k < j < s.len() ==> !is_separator(#[trigger] s[j]),
    ensures
        last_separator(s) == k,
{
    lemma_last_separator(s);
}

/// Splitting cuts at the last separator: the pieces of what stands before
/// it, then what stands after it.
pub proof fn lemma_split_at_last_separator(s: Seq<char>)
    requires
        last_separator(s) >= 0,
    ensures
        split(s) == split(s.subrange(0, last_separator(s))).push(
            s.subrange(last_separator(s) + 1, s.len() as int),
        ),
    decreases s.len(),
{
    let k = last_separator(s);
    lemma_last_separator(s);
    if is_separator(s.last()) {
        assert(s.subrange(k + 1, s.len() as int) =~= Seq::<char>::empty());
    } else {
        let init = s.drop_last();
        lemma_split_at_last_separator(init);
        assert(init.subrange(0, k) =~= s.subrange(0, k));
        assert(init.subrange(k + 1, init.len() as int).push(s.last()) =~= s.subrange(
            k + 1,
            s.len() as int,
        ));
    }
}

/// The given pieces with one separator between each two.
pub open spec fn join(pieces: Seq<Seq<char>>) -> Seq<char>
    decreases pieces.len(),
{
    if pieces.len() == 0 {
        Seq::empty()
    } else if pieces.len() == 1 {
        pieces[0]
    } else {
        join(pieces.drop_last()) + seq!['/'] + pieces.last()
    }
}

/// Splitting loses nothing and cuts at every separator: the pieces joined
/// again give the string, and no piece holds a separator.
pub proof fn lemma_split_join(s: Seq<char>)
    ensures
        join(split(s)) == s,
        forall|i: int, j: int|
            0 <= i < split(s).len() && 0 <= j < split(s)[i].len() ==> !is_separator(
                #[trigger] split(s)[i][j],
            ),
    decreases s.len(),
{
    if s.len() > 0 {
        let init = s.drop_last();
        let before = split(init);
        lemma_split_join(init);
        lemma_split_len(init);
        if is_separator(s.last()) {
            assert(before.push(Seq::empty()).drop_last() =~= before);
        } else {
            let grown = before.last().push(s.last());
            let pieces = before.drop_last().push(grown);
            assert(pieces.drop_last() =~= before.drop_last());
            assert(join(pieces) =~= join(before).push(s.last()));
        }
    }
}

/// A string always splits into at least one piece.
pub proof fn lemma_split_len(s: Seq<char>)
    ensures
        split(s).len() >= 1,
    decreases s.len(),
{
    if s.len() > 0 {
        lemma_split_len(s.drop_last());
    }
}

/// The key of a run of segments starts with the key of any of its prefixes.
pub proof fn lemma_non_empty_take(segments: Seq<Seq<char>>, n: int)
    requires
        0 <= n <= segments.len(),
    ensures
        non_empty(segments.take(n)).len() <= non_empty(segments).len(),
        non_empty(segments.take(n)) == non_empty(segments).take(
            non_empty(segments.take(n)).len() as int,
        ),
    decreases segments.len(),
{
    if n == segments.len() {
        assert(segments.take(n) =~= segments);
    } else {
        let init = segments.drop_last();
        lemma_non_empty_take(init, n);
        assert(init.take(n) =~= segments.take(n));
    }
}

/// Taking one more segment adds its name to the key where it is not empty,
/// and leaves the key as it is where it is.
pub proof fn lemma_non_empty_step(segments: Seq<Seq<char>>, n: int)
    requires
        0 <= n < segments.len(),
    ensures
        non_empty(segments.take(n + 1)) == if segments[n].len() > 0 {
            non_empty(segments.take(n)).push(segments[n])
        } else {
            non_empty(segments.take(n))
        },
{
    assert(segments.take(n + 1).drop_last() =~= segments.take(n));
}

/// The pieces of `path`, as owned strings.
pub fn split_path(path: &str) -> (pieces: Vec<String>)
    ensures
        pieces.deep_view() == split(path@),
{
    let n: usize = path.unicode_len();
    let mut pieces: Vec<String> = Vec::new();
    let mut start: usize = 0;
    let mut i: usize = 0;
    assert(path@.subrange(0, 0) =~= Seq::<char>::empty());
    for c in chars: path.chars()
        invariant
            chars.seq() == path@,
            i == chars.index(),
            n == path@.len(),
            start <= i,
            pieces.deep_view().push(path@.subrange(start as int, i as int)) == split(
                path@.subrange(0, i as int),
            ),
    {
        let ghost upto = path@.subrange(0, i + 1);
        assert(upto.drop_last() =~= path@.subrange(0, i as int));
        if c == '/' {
            let piece: String = path.substring_char(start, i).to_owned();
            pieces.push(piece);
            start = i + 1;
            assert(path@.subrange(start as int, i + 1) =~= Seq::<char>::empty());
        } else {
            assert(path@.subrange(start as int, i as int).push(c) =~= path@.subrange(
                start as int,
                i + 1,
            ));
        }
        i += 1;
    }
    assert(path@.subrange(0, n as int) =~= path@);
    let piece: String = path.substring_char(start, n).to_owned();
    pieces.push(piece);
    pieces
}

/// The segments of `path` that a traversal walks, empty ones included.
pub fn path_components(path: &str) -> (segments: Vec<String>)
    ensures
        segments.deep_view() == components(path@),
{
    let mut segments: Vec<String> = split_path(path);
    proof {
        lemma_split_len(path@);
    }
    segments.remove(0);
    segments
}

/// Index of the last separator of `path`, if it has one.
pub fn find_last_separator(path: &str) -> (found: Option<usize>)
    ensures
        match found {
            Some(k) => k == last_separator(path@),
            None => last_separator(path@) == -1,
        },
{
    let n: usize = path.unicode_len();
    let mut found: Option<usize> = None;
    let mut i: usize = 0;
    for c in chars: path.chars()
        invariant
            chars.seq() == path@,
            i == chars.index(),
            n == path@.len(),
            match found {
                Some(k) => k < i && is_separator(path@[k as int]) && forall|j: int|
                    k < j < i ==> !is_separator(#[trigger] path@[j]),
                None => forall|j: int| 0 <= j < i ==> !is_separator(#[trigger] path@[j]),
            },
    {
        if c == '/' {
            found = Some(i);
        }
        i += 1;
    }
    proof {
        match found {
            Some(k) => lemma_last_separator_unique(path@, k as int),
            None => lemma_last_separator_unique(path@, -1),
        }
    }
    found
}

/// Parent and leaf of `path`. The root path and a path without a separator
/// have no parent and are their own leaf; any other path is cut at its last
/// separator, and an empty parent stands for the root.
pub fn decompose(path: &str) -> (parts: (Option<String>, String))
    ensures
        parts.1@ == file_name_of(path@),
        match parts.0 {
            Some(parent) => parent_of(path@) == Some(parent@),
            None => parent_of(path@) is None,
        },
{
    let n: usize = path.unicode_len();
    proof {
        lemma_last_separator(path@);
    }
    match find_last_separator(path) {
        None => (None, path.to_owned()),
        Some(k) => {
            if n == 1 {
                (None, path.to_owned())
            } else {
                let leaf: String = path.substring_char(k + 1, n).to_owned();
                if k == 0 {
                    proof {
                        reveal_strlit("/");
                    }
                    let root: String = "/".to_owned();
                    (Some(root), leaf)
                } else {
                    (Some(path.substring_char(0, k).to_owned()), leaf)
                }
            }
        },
    }
}

/// Extends `path` by `segment`, putting one separator between them unless
/// `path` already ends in one.
pub fn push_segment(path: &mut String, segment: &str)
    ensures
        final(path)@ == joined(old(path)@, segment@),
{
    let n: usize = path.as_str().unicode_len();
    let ends_in_separator: bool = n > 0 && path.as_str().get_char(n - 1) == '/';
    if !ends_in_separator {
        proof {
            reveal_strlit("/");
        }
        path.append("/");
    }
    path.append(segment);
}

} // verus!
