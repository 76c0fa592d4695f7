//! Which entries of a directory walk are candidates for the search.

use crate::matcher::{bytes_match_at, occurs_at};
use vstd::prelude::*;
use vstd::utf8::encode_utf8;

verus! {

/// The byte that separates the components of a path.
pub const SLASH: u8 = 47;

/// The byte that a hidden name starts with.
pub const DOT: u8 = 46;

/// What a path names.
#[derive(Clone, Copy, Debug, PartialEq, Eq, Structural)]
pub enum PathKind {
    /// A regular file.
    RegularFile,
    /// A directory, or anything else that exists and is no regular file.
    Directory,
    /// Nothing.
    NotFound,
}

/// One entry that a directory walk came upon.
#[derive(Clone, Debug)]
pub struct WalkEntry {
    /// The path of the entry, the root of the walk included.
    pub path: String,
    /// How many directories below the root the entry lies; the root has 0.
    pub depth: usize,
    /// What the path names.
    pub kind: PathKind,
    /// Whether the walk reached the entry through a symbolic link.
    pub is_symlink: bool,
}

/// A file to be searched, and whether its lines are printed with its path.
#[derive(Clone, Debug)]
pub struct Candidate {
    pub path: String,
    pub show_filename: bool,
}

/// The bytes from `start` up to `end` are one component of the path: they
/// hold no separator, and a separator or an end of the path is on each side.
pub open spec fn is_component(path: Seq<u8>, start: int, end: int) -> bool {
    &&& 0 <= start <= end <= path.len()
    &&& (start == 0 || path[start - 1] == SLASH)
    &&& (end == path.len() || path[end] == SLASH)
    &&& forall|i: int| start <= i < end ==> path[i] != SLASH
}

/// The path lies in a directory called `name`: one of its components but
/// the last is `name`, whole. A directory whose name only ends with `name`
/// does not count, and the last component, the entry's own name, is not
/// looked at.
pub open spec fn in_excluded_dir(path: Seq<u8>, name: Seq<u8>) -> bool {
    exists|start: int, end: int| #[trigger]
        is_component(path, start, end) && end < path.len() && path.subrange(start, end) == name
}

/// The number of separators in the path from the byte at `from` on.
pub open spec fn separators_from(path: Seq<u8>, from: int) -> int
    decreases path.len() - from,
{
    if from < 0 || from >= path.len() {
        0
    } else if path[from] == SLASH {
        1 + separators_from(path, from + 1)
    } else {
        separators_from(path, from + 1)
    }
}

/// One of the last `depth` components of the path begins with a dot. For
/// an entry `depth` directories below the root of a walk these are the
/// components below the root.
pub open spec fn has_hidden_component(path: Seq<u8>, depth: usize) -> bool {
    exists|start: int, end: int| #[trigger]
        is_component(path, start, end) && start < end && path[start] == DOT && separators_from(
            path,
            end,
        ) < depth
}

/// An entry of a walk is searched if it is a regular file, was not reached
/// through a symbolic link unless links are followed, has no hidden name
/// and lies in no hidden directory below the root, and lies in no excluded
/// directory.
pub open spec fn is_candidate(
    path: Seq<char>,
    depth: usize,
    kind: PathKind,
    is_symlink: bool,
    follow_symlinks: bool,
    exclude_dir: Option<Seq<char>>,
) -> bool {
    &&& kind == PathKind::RegularFile
    &&& (follow_symlinks || !is_symlink)
    &&& !has_hidden_component(encode_utf8(path), depth)
    &&& match exclude_dir {
        Some(name) => !in_excluded_dir(encode_utf8(path), encode_utf8(name)),
        None => true,
    }
}

/// A component is known by its end: two components that end at one place
/// start at one place.
proof fn lemma_component_start(path: Seq<u8>, one: int, two: int, end: int)
    requires
        is_component(path, one, end),
        is_component(path, two, end),
    ensures
        one == two,
{
    if one < two {
        assert(path[two - 1] == SLASH);
    } else if two < one {
        assert(path[one - 1] == SLASH);
    }
}

/// Whether the path lies in a directory called `name`.
pub fn is_excluded(path: &str, name: &str) -> (excluded: bool)
    ensures
        excluded == in_excluded_dir(encode_utf8(path@), encode_utf8(name@)),
{
    let bytes = path.as_bytes();
    let wanted = name.as_bytes();
    let mut start: usize = 0;
    let mut i: usize = 0;
    while i < bytes.len()
        invariant
            start <= i <= bytes@.len(),
            bytes@ == encode_utf8(path@),
            wanted@ == encode_utf8(name@),
            start == 0 || bytes@[start - 1] == SLASH,
            forall|j: int| start <= j < i ==> bytes@[j] != SLASH,
            forall|s: int, e: int| #[trigger]
                is_component(bytes@, s, e) && e < i ==> bytes@.subrange(s, e) != wanted@,
        decreases bytes@.len() - i,
    {
        if bytes[i] == SLASH {
            assert(is_component(bytes@, start as int, i as int));
            if i - start == wanted.len() && bytes_match_at(bytes, wanted, start) {
                assert(bytes@.subrange(start as int, i as int) == wanted@);
                return true;
            }
            assert forall|s: int, e: int| #[trigger]
                is_component(bytes@, s, e) && e < i + 1 implies bytes@.subrange(s, e)
                != wanted@ by {
                if e == i {
                    lemma_component_start(bytes@, s, start as int, e);
                    if i - start == wanted@.len() {
                        assert(!occurs_at(wanted@, bytes@, start as int));
                    } else {
                        assert(bytes@.subrange(s, e).len() != wanted@.len());
                    }
                }
            }
            start = i + 1;
        }
        i += 1;
    }
    false
}

/// Bytes that are no separators do not count.
proof fn lemma_separators_skip(path: Seq<u8>, from: int, to: int)
    requires
        0 <= from <= to <= path.len(),
        forall|j: int| from <= j < to ==> path[j] != SLASH,
    ensures
        separators_from(path, from) == separators_from(path, to),
    decreases to - from,
{
    if from < to {
        lemma_separators_skip(path, from + 1, to);
    }
}

/// The further along the path, the fewer separators are left.
proof fn lemma_separators_fall(path: Seq<u8>, from: int, to: int)
    requires
        0 <= from <= to <= path.len(),
    ensures
        separators_from(path, from) >= separators_from(path, to) >= 0,
    decreases path.len() - from,
{
    if from < to {
        lemma_separators_fall(path, from + 1, to);
    } else if to < path.len() {
        lemma_separators_fall(path, to + 1, to + 1);
    }
}

/// Whether one of the last `depth` components of the path begins with a
/// dot.
pub fn is_hidden(path: &str, depth: usize) -> (hidden: bool)
    ensures
        hidden == has_hidden_component(encode_utf8(path@), depth),
{
    let bytes = path.as_bytes();
    let len: usize = bytes.len();
    let mut end: usize = len;
    let mut seen: usize = 0;
    loop
        invariant
            len == bytes@.len(),
            bytes@ == encode_utf8(path@),
            end <= len,
            seen + end <= len,
            seen == separators_from(bytes@, end as int),
            end == len || bytes@[end as int] == SLASH,
            forall|s: int, e: int| #[trigger]
                is_component(bytes@, s, e) && e > end ==> !(s < e && bytes@[s] == DOT
                    && separators_from(bytes@, e) < depth),
        decreases end,
    {
        if seen >= depth {
            proof {
                assert forall|s: int, e: int| #[trigger] is_component(bytes@, s, e) implies !(s
                    < e && bytes@[s] == DOT && separators_from(bytes@, e) < depth) by {
                    if e <= end {
                        lemma_separators_fall(bytes@, e, end as int);
                    }
                }
            }
            return false;
        }
        let mut start: usize = end;
        while start > 0 && bytes[start - 1] != SLASH
            invariant
                start <= end <= len,
                len == bytes@.len(),
                forall|j: int| start <= j < end ==> bytes@[j] != SLASH,
            decreases start,
        {
            start -= 1;
        }
        assert(is_component(bytes@, start as int, end as int));
        if start < end && bytes[start] == DOT {
            return true;
        }
        proof {
            assert forall|s: int, e: int| #[trigger]
                is_component(bytes@, s, e) && e >= start implies !(s < e && bytes@[s] == DOT
                && separators_from(bytes@, e) < depth) by {
                if e == end {
                    lemma_component_start(bytes@, s, start as int, e);
                } else if e < end {
                    assert(bytes@[e] == SLASH);
                }
            }
        }
        if start == 0 {
            return false;
        }
        proof {
            lemma_separators_skip(bytes@, start as int, end as int);
        }
        end = start - 1;
        seen += 1;
    }
}

impl WalkEntry {
    /// Whether the entry is searched.
    pub fn is_candidate(&self, follow_symlinks: bool, exclude_dir: Option<&str>) -> (chosen: bool)
        ensures
            chosen == is_candidate(
                self.path@,
                self.depth,
                self.kind,
                self.is_symlink,
                follow_symlinks,
                name_view(exclude_dir),
            ),
    {
        if self.kind != PathKind::RegularFile {
            return false;
        }
        if self.is_symlink && !follow_symlinks {
            return false;
        }
        if is_hidden(self.path.as_str(), self.depth) {
            return false;
        }
        match exclude_dir {
            Some(name) => !is_excluded(self.path.as_str(), name),
            None => true,
        }
    }
}

/// The view of an optional name.
pub open spec fn name_view(name: Option<&str>) -> Option<Seq<char>> {
    match name {
        Some(text) => Some(text@),
        None => None,
    }
}

/// The paths of the candidates among the first `n` entries, in the order
/// of the walk.
pub open spec fn chosen_paths(
    entries: Seq<WalkEntry>,
    follow_symlinks: bool,
    exclude_dir: Option<Seq<char>>,
    n: int,
) -> Seq<Seq<char>>
    decreases n,
{
    if n <= 0 {
        Seq::empty()
    } else {
        let entry = entries[n - 1];
        let rest = chosen_paths(entries, follow_symlinks, exclude_dir, n - 1);
        if is_candidate(
            entry.path@,
            entry.depth,
            entry.kind,
            entry.is_symlink,
            follow_symlinks,
            exclude_dir,
        ) {
            rest.push(entry.path@)
        } else {
            rest
        }
    }
}

/// The paths of the candidates.
pub open spec fn paths_of(candidates: Seq<Candidate>) -> Seq<Seq<char>> {
    Seq::new(candidates.len(), |i: int| candidates[i].path@)
}

/// Picks the candidates among the entries of a walk, in the order of the
/// walk. Their lines are printed with their paths. No candidate lies in an
/// excluded directory, is hidden below the root, or is anything but a
/// regular file.
pub fn select_candidates(
    entries: &Vec<WalkEntry>,
    follow_symlinks: bool,
    exclude_dir: Option<&str>,
) -> (candidates: Vec<Candidate>)
    ensures
        paths_of(candidates@) == chosen_paths(
            entries@,
            follow_symlinks,
            name_view(exclude_dir),
            entries@.len() as int,
        ),
        forall|i: int| 0 <= i < candidates@.len() ==> (#[trigger] candidates@[i]).show_filename,
        forall|i: int|
            0 <= i < candidates@.len() && exclude_dir is Some ==> !in_excluded_dir(
                encode_utf8((#[trigger] candidates@[i]).path@),
                encode_utf8(exclude_dir->0@),
            ),
{
    let mut candidates: Vec<Candidate> = Vec::new();
    let mut i: usize = 0;
    while i < entries.len()
        invariant
            i <= entries@.len(),
            paths_of(candidates@) =~= chosen_paths(
                entries@,
                follow_symlinks,
                name_view(exclude_dir),
                i as int,
            ),
            forall|j: int| 0 <= j < candidates@.len() ==> (#[trigger] candidates@[j]).show_filename,
            forall|j: int|
                0 <= j < candidates@.len() && exclude_dir is Some ==> !in_excluded_dir(
                    encode_utf8((#[trigger] candidates@[j]).path@),
                    encode_utf8(exclude_dir->0@),
                ),
        decreases entries@.len() - i,
    {
        if entries[i].is_candidate(follow_symlinks, exclude_dir) {
            candidates.push(Candidate { path: entries[i].path.clone(), show_filename: true });
        }
        i += 1;
    }
    candidates
}

} // verus!
