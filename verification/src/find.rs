//! Finding files and directories by glob pattern.
//!
//! A search runs in two steps around the walk of the filesystem: the
//! pattern to walk is chosen first (`search_pattern`), and what the walk
//! listed is collected afterwards (`matched_paths`). Paths are byte strings
//! (see `path`). `find_files` and
//! `find_dirs` keep, of what was found, the files or the directories.

use vstd::prelude::*;
use crate::path::{
    escape,
    join,
    lemma_escape_plain,
    needs_escape,
    spec_escape,
    spec_join,
    SLASH,
    STAR,
};

verus! {

/// What a path names on disk, following symbolic links.
#[derive(Clone, Copy, Debug, PartialEq, Eq, Structural)]
pub enum EntryKind {
    /// A regular file.
    File,
    /// A directory.
    Dir,
    /// Anything else, or nothing at all.
    Other,
}

/// A path found by a search, with what it names.
#[derive(Debug, PartialEq, Eq)]
pub struct FoundPath {
    pub path: Vec<u8>,
    pub kind: EntryKind,
}

/// One item listed by a glob walk.
#[derive(Debug, PartialEq, Eq)]
pub enum GlobEntry {
    /// A path that matches the pattern.
    Match(Vec<u8>),
    /// An entry that the walk could not read.
    Unreadable,
}

/// The pattern that a search for `pattern` walks: a directory stands for
/// everything directly inside it, its own name taken literally.
pub open spec fn spec_search_pattern(pattern: Seq<u8>, pattern_is_dir: bool) -> Seq<u8> {
    if pattern_is_dir {
        spec_join(spec_escape(pattern), seq![STAR])
    } else {
        pattern
    }
}

/// The glob pattern to walk when searching for `pattern`; `pattern_is_dir`
/// tells whether `pattern` names a directory.
pub fn search_pattern(pattern: &[u8], pattern_is_dir: bool) -> (r: Vec<u8>)
    ensures
        r@ == spec_search_pattern(pattern@, pattern_is_dir),
        !pattern_is_dir ==> r@ == pattern@,
{
    if pattern_is_dir {
        let star = [STAR];
        assert(star@ == seq![STAR]);
        join(escape(pattern).as_slice(), &star)
    } else {
        vstd::slice::slice_to_vec(pattern)
    }
}

/// The byte strings of a list of paths.
pub open spec fn paths_view(r: Seq<Vec<u8>>) -> Seq<Seq<u8>> {
    r.map_values(|v: Vec<u8>| v@)
}

/// The matching paths of a glob listing, in the order listed.
pub open spec fn spec_matches(entries: Seq<GlobEntry>) -> Seq<Seq<u8>>
    decreases entries.len(),
{
    if entries.len() == 0 {
        seq![]
    } else {
        let rest = spec_matches(entries.drop_last());
        match entries.last() {
            GlobEntry::Match(p) => rest.push(p@),
            GlobEntry::Unreadable => rest,
        }
    }
}

/// What a search finds, given the listing of its glob walk: `None` when the
/// pattern was not a valid glob pattern (nothing is found then), otherwise
/// every matching path, in order, with the unreadable entries left out.
pub fn matched_paths(listing: Option<Vec<GlobEntry>>) -> (r: Vec<Vec<u8>>)
    ensures
        paths_view(r@) == match listing {
            Some(entries) => spec_matches(entries@),
            None => Seq::<Seq<u8>>::empty(),
        },
        r@.len() == match listing {
            Some(entries) => match_count(entries@),
            None => 0,
        },
{
    proof {
        if listing is Some {
            lemma_every_match_found(listing->0@);
        }
    }
    let mut r: Vec<Vec<u8>> = Vec::new();
    match listing {
        None => {
            assert(paths_view(r@) =~= Seq::<Seq<u8>>::empty());
        },
        Some(entries) => {
            for i in 0..entries.len()
                invariant
                    paths_view(r@) == spec_matches(entries@.take(i as int)),
            {
                assert(entries@.take(i + 1).drop_last() == entries@.take(i as int));
                match &entries[i] {
                    GlobEntry::Match(p) => {
                        r.push(vstd::slice::slice_to_vec(p.as_slice()));
                    },
                    GlobEntry::Unreadable => {},
                }
                assert(paths_view(r@) =~= spec_matches(entries@.take(i + 1)));
            }
            assert(entries@.take(entries@.len() as int) == entries@);
        },
    }
    r
}

/// The paths of the found entries of the given kind, in order.
pub open spec fn paths_of_kind(found: Seq<FoundPath>, kind: EntryKind) -> Seq<Seq<u8>>
    decreases found.len(),
{
    if found.len() == 0 {
        seq![]
    } else {
        let rest = paths_of_kind(found.drop_last(), kind);
        if found.last().kind == kind {
            rest.push(found.last().path@)
        } else {
            rest
        }
    }
}

fn select_kind(found: &Vec<FoundPath>, kind: EntryKind) -> (r: Vec<Vec<u8>>)
    ensures
        paths_view(r@) == paths_of_kind(found@, kind),
{
    let mut r: Vec<Vec<u8>> = Vec::new();
    assert(paths_view(r@) =~= Seq::<Seq<u8>>::empty());
    for i in 0..found.len()
        invariant
            paths_view(r@) == paths_of_kind(found@.take(i as int), kind),
    {
        assert(found@.take(i + 1).drop_last() == found@.take(i as int));
        if found[i].kind == kind {
            r.push(vstd::slice::slice_to_vec(found[i].path.as_slice()));
        }
        assert(paths_view(r@) =~= paths_of_kind(found@.take(i + 1), kind));
    }
    assert(found@.take(found@.len() as int) == found@);
    r
}

/// The files among what a search found, in the order found.
pub fn find_files(found: &Vec<FoundPath>) -> (r: Vec<Vec<u8>>)
    ensures
        paths_view(r@) == paths_of_kind(found@, EntryKind::File),
{
    select_kind(found, EntryKind::File)
}

/// The directories among what a search found, in the order found.
pub fn find_dirs(found: &Vec<FoundPath>) -> (r: Vec<Vec<u8>>)
    ensures
        paths_view(r@) == paths_of_kind(found@, EntryKind::Dir),
{
    select_kind(found, EntryKind::Dir)
}


/// Every found entry is counted by exactly one of the file, directory and
/// other selections.
pub proof fn lemma_kinds_partition(found: Seq<FoundPath>)
    ensures
        paths_of_kind(found, EntryKind::File).len() + paths_of_kind(found, EntryKind::Dir).len()
            + paths_of_kind(found, EntryKind::Other).len() == found.len(),
    decreases found.len(),
{
    if found.len() > 0 {
        lemma_kinds_partition(found.drop_last());
    }
}

/// Whether some found entry of the given kind has the path `p`.
pub open spec fn has_entry(found: Seq<FoundPath>, kind: EntryKind, p: Seq<u8>) -> bool {
    exists|j: int| 0 <= j < found.len() && #[trigger] found[j].kind == kind && found[j].path@ == p
}

/// Every path selected for a kind is the path of a found entry of that kind.
pub proof fn lemma_selected_were_found(found: Seq<FoundPath>, kind: EntryKind)
    ensures
        forall|i: int|
            0 <= i < paths_of_kind(found, kind).len() ==> has_entry(
                found,
                kind,
                #[trigger] paths_of_kind(found, kind)[i],
            ),
    decreases found.len(),
{
    if found.len() > 0 {
        let init = found.drop_last();
        lemma_selected_were_found(init, kind);
        let sel = paths_of_kind(found, kind);
        assert forall|i: int| 0 <= i < sel.len() implies has_entry(found, kind, #[trigger] sel[i]) by {
            if i < paths_of_kind(init, kind).len() {
                assert(has_entry(init, kind, paths_of_kind(init, kind)[i]));
                let j = choose|j: int|
                    0 <= j < init.len() && #[trigger] init[j].kind == kind && init[j].path@
                        == paths_of_kind(init, kind)[i];
                assert(found[j] == init[j]);
            } else {
                let j = found.len() - 1;
                assert(found[j] == found.last());
                assert(found[j].kind == kind);
            }
        }
    }
}


/// A pattern that does not name a directory is walked exactly as given.
pub proof fn lemma_pattern_walked_as_given(pattern: Seq<u8>)
    ensures
        spec_search_pattern(pattern, false) == pattern,
{
}

/// A directory is walked as its literally taken name followed by `/*`:
/// the pattern starts with the escaped name and ends in a single `*` that
/// matches the entries directly inside it.
pub proof fn lemma_directory_walked_one_level(dir: Seq<u8>)
    ensures
        spec_search_pattern(dir, true).last() == STAR,
        spec_search_pattern(dir, true).take(spec_escape(dir).len() as int) == spec_escape(dir),
        spec_search_pattern(dir, true).len() <= spec_escape(dir).len() + 2,
{
    let e = spec_escape(dir);
    let r = spec_search_pattern(dir, true);
    if e.len() == 0 || e.last() == SLASH {
        assert(r == e + seq![STAR]);
    } else {
        assert(r == e + seq![SLASH] + seq![STAR]);
    }
    assert(r.take(e.len() as int) == e);
}

/// The number of readable matches in a glob listing.
pub open spec fn match_count(entries: Seq<GlobEntry>) -> nat
    decreases entries.len(),
{
    if entries.len() == 0 {
        0
    } else {
        match_count(entries.drop_last()) + if entries.last() is Match {
            1nat
        } else {
            0
        }
    }
}

/// Whether the listing matched the path `q`.
pub open spec fn listed(entries: Seq<GlobEntry>, q: Seq<u8>) -> bool {
    exists|j: int|
        0 <= j < entries.len() && (#[trigger] entries[j] matches GlobEntry::Match(p) && p@ == q)
}

/// No readable match is lost or invented: a search finds as many paths as
/// the listing has matches, every matching path is found, and every path
/// found is one the listing matched.
pub proof fn lemma_every_match_found(entries: Seq<GlobEntry>)
    ensures
        spec_matches(entries).len() == match_count(entries),
        forall|j: int|
            0 <= j < entries.len() ==> (#[trigger] entries[j] matches GlobEntry::Match(p)
                ==> spec_matches(entries).contains(p@)),
        forall|k: int|
            0 <= k < spec_matches(entries).len() ==> listed(
                entries,
                #[trigger] spec_matches(entries)[k],
            ),
    decreases entries.len(),
{
    if entries.len() > 0 {
        let init = entries.drop_last();
        lemma_every_match_found(init);
        let all = spec_matches(entries);
        let part = spec_matches(init);
        assert forall|j: int|
            0 <= j < entries.len() implies (#[trigger] entries[j] matches GlobEntry::Match(p)
            ==> all.contains(p@)) by {
            if j < init.len() {
                assert(entries[j] == init[j]);
                match init[j] {
                    GlobEntry::Match(p) => {
                        let k = choose|k: int| 0 <= k < part.len() && part[k] == p@;
                        assert(all[k] == part[k]);
                    },
                    GlobEntry::Unreadable => {},
                }
            } else {
                assert(entries[j] == entries.last());
                match entries.last() {
                    GlobEntry::Match(p) => {
                        assert(all[all.len() - 1] == p@);
                    },
                    GlobEntry::Unreadable => {},
                }
            }
        }
        assert forall|k: int| 0 <= k < all.len() implies listed(entries, #[trigger] all[k]) by {
            if k < part.len() {
                assert(listed(init, part[k]));
                let j = choose|j: int|
                    0 <= j < init.len() && (#[trigger] init[j] matches GlobEntry::Match(p) && p@
                        == part[k]);
                assert(entries[j] == init[j]);
                assert(all[k] == part[k]);
            } else {
                let j = entries.len() - 1;
                assert(entries[j] == entries.last());
            }
        }
    }
}

/// Every found entry of a kind is selected for that kind.
pub proof fn lemma_found_are_selected(found: Seq<FoundPath>, kind: EntryKind)
    ensures
        forall|j: int|
            0 <= j < found.len() && #[trigger] found[j].kind == kind ==> paths_of_kind(
                found,
                kind,
            ).contains(found[j].path@),
    decreases found.len(),
{
    if found.len() > 0 {
        let init = found.drop_last();
        lemma_found_are_selected(init, kind);
        let sel = paths_of_kind(found, kind);
        assert forall|j: int| 0 <= j < found.len() && #[trigger] found[j].kind == kind implies sel.contains(
            found[j].path@,
        ) by {
            if j < init.len() {
                assert(found[j] == init[j]);
                assert(init[j].kind == kind);
                let isel = paths_of_kind(init, kind);
                let k = choose|k: int| 0 <= k < isel.len() && isel[k] == init[j].path@;
                assert(sel[k] == isel[k]);
            } else {
                assert(found[j] == found.last());
                assert(sel[sel.len() - 1] == found[j].path@);
            }
        }
    }
}

/// Searching a directory whose name holds no glob metacharacter and no `]`
/// walks the same pattern as searching for everything directly inside it
/// (`dir/*`), when `dir/*` itself names no directory.
pub proof fn lemma_directory_search_is_star(dir: Seq<u8>)
    requires
        forall|i: int| 0 <= i < dir.len() ==> !needs_escape(#[trigger] dir[i]),
    ensures
        spec_search_pattern(dir, true) == spec_search_pattern(spec_join(dir, seq![STAR]), false),
{
    lemma_escape_plain(dir);
}

/// A listing in which a path comes with one kind wherever it occurs, as a
/// listing of one filesystem does.
pub open spec fn kinds_consistent(found: Seq<FoundPath>) -> bool {
    forall|i: int, j: int|
        0 <= i < found.len() && 0 <= j < found.len() && #[trigger] found[i].path@
            == #[trigger] found[j].path@ ==> found[i].kind == found[j].kind
}

/// When each path comes with one kind, no path is selected both as a file
/// and as a directory.
pub proof fn lemma_files_and_dirs_disjoint(found: Seq<FoundPath>)
    requires
        kinds_consistent(found),
    ensures
        forall|i: int, j: int|
            0 <= i < paths_of_kind(found, EntryKind::File).len() && 0 <= j < paths_of_kind(
                found,
                EntryKind::Dir,
            ).len() ==> #[trigger] paths_of_kind(found, EntryKind::File)[i]
                != #[trigger] paths_of_kind(found, EntryKind::Dir)[j],
{
    lemma_selected_were_found(found, EntryKind::File);
    lemma_selected_were_found(found, EntryKind::Dir);
    let files = paths_of_kind(found, EntryKind::File);
    let dirs = paths_of_kind(found, EntryKind::Dir);
    assert forall|i: int, j: int| 0 <= i < files.len() && 0 <= j < dirs.len() implies #[trigger] files[i]
        != #[trigger] dirs[j] by {
        assert(has_entry(found, EntryKind::File, files[i]));
        assert(has_entry(found, EntryKind::Dir, dirs[j]));
        let a = choose|a: int|
            0 <= a < found.len() && #[trigger] found[a].kind == EntryKind::File && found[a].path@
                == files[i];
        let b = choose|b: int|
            0 <= b < found.len() && #[trigger] found[b].kind == EntryKind::Dir && found[b].path@
                == dirs[j];
        if files[i] == dirs[j] {
            assert(found[a].path@ == found[b].path@);
        }
    }
}

} // verus!
