//! Installing files into a directory, the way `install <src> <dst>` does.
//!
//! The source is told first (`install_source`): a directory stands for
//! everything below it, a glob pattern is searched for, a file stands for
//! itself, and anything else for nothing. The installation is then planned from
//! what the search found (`install_plan`): the destination directory is
//! made, and every entry found lands below it at the same path it has below
//! the searched directory, so the source's folder structure is kept; a
//! single file, or an entry whose path below the base would climb out
//! through a `.` or `..` component, lands directly in the destination under
//! its own name. For a directory source the folders found are made as
//! well; for a glob pattern only the matching files are installed. Every
//! target lies below the destination, the sources are only read, and a
//! copy whose target is spelled as its source is left out.

use vstd::prelude::*;
use crate::find::{EntryKind, FoundPath};
use crate::path::{
    copy_range,
    needs_escape,
    is_plain_component,
    escape,
    file_name,
    is_glob_byte,
    is_glob_pattern,
    join,
    lemma_file_name_is_plain,
    lemma_join_file_name,
    spec_escape,
    spec_file_name,
    spec_is_glob_pattern,
    spec_join,
    DOT,
    SLASH,
    STAR,
};

verus! {

/// Where the files to install come from.
#[derive(Debug, PartialEq, Eq)]
pub enum InstallSource {
    /// The paths that a search for this pattern finds.
    Search(Vec<u8>),
    /// This single file.
    Single(Vec<u8>),
    /// Nothing at all.
    Missing,
}

/// One step of an installation.
#[derive(Debug, PartialEq, Eq)]
pub enum InstallStep {
    /// Make sure this directory exists, with its parents.
    MakeDir(Vec<u8>),
    /// Copy the file `from` to `to`.
    Copy { from: Vec<u8>, to: Vec<u8> },
}

/// The view of an installation step, over byte strings.
pub enum StepView {
    MakeDir(Seq<u8>),
    Copy(Seq<u8>, Seq<u8>),
}

impl View for InstallStep {
    type V = StepView;

    open spec fn view(&self) -> StepView {
        match self {
            InstallStep::MakeDir(d) => StepView::MakeDir(d@),
            InstallStep::Copy { from, to } => StepView::Copy(from@, to@),
        }
    }
}

/// Why an installation is refused.
#[derive(Debug, PartialEq, Eq)]
pub enum InstallError {
    /// No source file was found at the given path.
    NoSourceFiles(Vec<u8>),
}

/// The pattern that stands for everything below the directory `dir`, whose
/// own name is taken literally.
pub open spec fn everything_below(dir: Seq<u8>) -> Seq<u8> {
    spec_join(spec_escape(dir), seq![STAR, STAR, SLASH, STAR])
}

/// Tells where the files to install from `src` come from, given what `src`
/// names on disk: a directory by searching for everything below it (its
/// name taken literally), a glob pattern by searching for it as it is, a
/// file alone, and anything else gives nothing.
pub fn install_source(src: &[u8], kind: EntryKind) -> (r: InstallSource)
    ensures
        kind == EntryKind::Dir ==> (r matches InstallSource::Search(p) && p@ == everything_below(
            src@,
        )),
        kind != EntryKind::Dir && spec_is_glob_pattern(src@) ==> (r matches InstallSource::Search(
            p,
        ) && p@ == src@),
        kind == EntryKind::File && !spec_is_glob_pattern(src@) ==> (r matches InstallSource::Single(
            p,
        ) && p@ == src@),
        kind == EntryKind::Other && !spec_is_glob_pattern(src@) ==> r is Missing,
{
    if kind == EntryKind::Dir {
        let below = [STAR, STAR, SLASH, STAR];
        assert(below@ == seq![STAR, STAR, SLASH, STAR]);
        InstallSource::Search(join(escape(src).as_slice(), &below))
    } else if is_glob_pattern(src) {
        InstallSource::Search(vstd::slice::slice_to_vec(src))
    } else if kind == EntryKind::File {
        InstallSource::Single(vstd::slice::slice_to_vec(src))
    } else {
        InstallSource::Missing
    }
}

/// The index of the first glob metacharacter of `p` (its length when there
/// is none).
pub open spec fn first_glob(p: Seq<u8>) -> nat
    decreases p.len(),
{
    if p.len() == 0 {
        0
    } else if is_glob_byte(p[0]) {
        0
    } else {
        1 + first_glob(p.drop_first())
    }
}

/// What comes before the last `/` of `p`, if it holds one.
pub open spec fn before_last_slash(p: Seq<u8>) -> Option<Seq<u8>>
    decreases p.len(),
{
    if p.len() == 0 {
        None
    } else if p.last() == SLASH {
        Some(p.drop_last())
    } else {
        before_last_slash(p.drop_last())
    }
}

/// The directory in which a glob pattern starts to match: its components
/// before the first one that holds a metacharacter (`/` for the root, the
/// empty path for the current directory).
pub open spec fn literal_dir(pattern: Seq<u8>) -> Seq<u8> {
    match before_last_slash(pattern.take(first_glob(pattern) as int)) {
        None => seq![],
        Some(d) => if d.len() == 0 {
            seq![SLASH]
        } else {
            d
        },
    }
}

/// The directory that the found entries are placed relative to: the
/// directory itself when `src` names one, the literal directory of a glob
/// pattern, and none for a single file.
pub open spec fn spec_install_base(src: Seq<u8>, kind: EntryKind) -> Option<Seq<u8>> {
    if kind == EntryKind::Dir {
        Some(src)
    } else if spec_is_glob_pattern(src) {
        Some(literal_dir(src))
    } else {
        None
    }
}

/// `base` as the start of the paths below it.
pub open spec fn dir_prefix(base: Seq<u8>) -> Seq<u8> {
    if base.len() == 0 || base.last() == SLASH {
        base
    } else {
        base.push(SLASH)
    }
}

/// Whether a component of `r` that starts at `i` is `.` or `..`.
pub open spec fn starts_dot_component(r: Seq<u8>, i: int) -> bool {
    &&& r[i] == DOT
    &&& (i + 1 == r.len() || r[i + 1] == SLASH || (r[i + 1] == DOT && (i + 2 == r.len() || r[i
        + 2] == SLASH)))
}

/// A clean relative path: it does not start at the root, and none of its
/// components is `.` or `..`, so it names something below wherever it is
/// joined.
pub open spec fn is_clean_relative(r: Seq<u8>) -> bool {
    &&& (r.len() > 0 ==> r[0] != SLASH)
    &&& forall|i: int|
        0 <= i < r.len() && (i == 0 || r[i - 1] == SLASH) ==> !#[trigger] starts_dot_component(
            r,
            i,
        )
}

/// The path of `p` below `base`, when `p` lies below it and that path is a
/// clean relative one.
pub open spec fn relative_to(base: Seq<u8>, p: Seq<u8>) -> Option<Seq<u8>> {
    let pre = dir_prefix(base);
    if pre.len() < p.len() && p.take(pre.len() as int) == pre && is_clean_relative(
        p.skip(pre.len() as int),
    ) {
        Some(p.skip(pre.len() as int))
    } else {
        None
    }
}

/// The final component of `p`, or the empty path when it has none.
pub open spec fn name_or_empty(p: Seq<u8>) -> Seq<u8> {
    match spec_file_name(p) {
        Some(n) => n,
        None => seq![],
    }
}

/// Where below the destination a found entry `p` lands: at its path below
/// the base, or under its own name when there is no base or it does not lie
/// below it.
pub open spec fn landing(base: Option<Seq<u8>>, p: Seq<u8>) -> Seq<u8> {
    match base {
        Some(b) => match relative_to(b, p) {
            Some(r) => r,
            None => name_or_empty(p),
        },
        None => name_or_empty(p),
    }
}

/// The steps that install one found entry into `dst`: a directory is made
/// there when `dirs` holds (a directory source) and left out otherwise (a
/// glob source); a file is copied there, its parent directory made first
/// when it lies deeper, unless its target is spelled as the file itself.
pub open spec fn entry_steps(base: Option<Seq<u8>>, dirs: bool, dst: Seq<u8>, s: FoundPath) -> Seq<
    StepView,
> {
    let rel = landing(base, s.path@);
    let to = spec_join(dst, rel);
    if s.kind == EntryKind::Dir {
        if dirs {
            seq![StepView::MakeDir(to)]
        } else {
            seq![]
        }
    } else if to == s.path@ {
        seq![]
    } else {
        match before_last_slash(rel) {
            Some(d) => seq![StepView::MakeDir(spec_join(dst, d)), StepView::Copy(s.path@, to)],
            None => seq![StepView::Copy(s.path@, to)],
        }
    }
}

/// The steps that install the found entries into `dst`: the destination is
/// made, then each entry is installed in order.
pub open spec fn plan_steps(
    base: Option<Seq<u8>>,
    dirs: bool,
    dst: Seq<u8>,
    sources: Seq<FoundPath>,
) -> Seq<StepView>
    decreases sources.len(),
{
    if sources.len() == 0 {
        seq![StepView::MakeDir(dst)]
    } else {
        plan_steps(base, dirs, dst, sources.drop_last()) + entry_steps(
            base,
            dirs,
            dst,
            sources.last(),
        )
    }
}

/// The view of a list of steps.
pub open spec fn steps_view(steps: Seq<InstallStep>) -> Seq<StepView> {
    steps.map_values(|s: InstallStep| s@)
}

proof fn lemma_first_glob(p: Seq<u8>, i: int)
    requires
        0 <= i <= p.len(),
        forall|j: int| 0 <= j < i ==> !is_glob_byte(#[trigger] p[j]),
        i == p.len() || is_glob_byte(p[i]),
    ensures
        first_glob(p) == i,
    decreases i,
{
    if i > 0 {
        assert forall|j: int| 0 <= j < i - 1 implies !is_glob_byte(#[trigger] p.drop_first()[j]) by {
            assert(p.drop_first()[j] == p[j + 1]);
        }
        assert(!is_glob_byte(p[0]));
        lemma_first_glob(p.drop_first(), i - 1);
    }
}

proof fn lemma_before_last_slash(p: Seq<u8>, c: int)
    requires
        -1 <= c < p.len(),
        c >= 0 ==> p[c] == SLASH,
        forall|j: int| c < j < p.len() ==> #[trigger] p[j] != SLASH,
    ensures
        before_last_slash(p) == if c < 0 {
            None::<Seq<u8>>
        } else {
            Some(p.take(c))
        },
    decreases p.len(),
{
    if p.len() > 0 {
        if c == p.len() - 1 {
            assert(p.drop_last() == p.take(c));
        } else {
            lemma_before_last_slash(p.drop_last(), c);
            if c >= 0 {
                assert(p.drop_last().take(c) == p.take(c));
            }
        }
    }
}

/// The index of the last `/` in `p[..end]`, if any.
fn last_slash(p: &[u8], end: usize) -> (r: Option<usize>)
    requires
        end <= p@.len(),
    ensures
        before_last_slash(p@.take(end as int)) == match r {
            None => None::<Seq<u8>>,
            Some(c) => Some(p@.take(c as int)),
        },
        r matches Some(c) ==> c < end,
{
    let mut k = end;
    while k > 0 && p[k - 1] != SLASH
        invariant
            k <= end <= p@.len(),
            forall|j: int| k <= j < end ==> #[trigger] p@[j] != SLASH,
        decreases k,
    {
        k -= 1;
    }
    let ghost q = p@.take(end as int);
    if k == 0 {
        proof {
            lemma_before_last_slash(q, -1);
        }
        None
    } else {
        proof {
            lemma_before_last_slash(q, k - 1);
            assert(q.take(k - 1) == p@.take(k - 1));
        }
        Some(k - 1)
    }
}

/// The literal directory of the glob pattern `p`.
fn literal_dir_of(p: &[u8]) -> (r: Vec<u8>)
    ensures
        r@ == literal_dir(p@),
{
    let mut g: usize = 0;
    while g < p.len() && !(p[g] == STAR || p[g] == crate::path::QUESTION
        || p[g] == crate::path::OPEN_BRACKET)
        invariant
            g <= p@.len(),
            forall|j: int| 0 <= j < g ==> !is_glob_byte(#[trigger] p@[j]),
        decreases p@.len() - g,
    {
        g += 1;
    }
    proof {
        lemma_first_glob(p@, g as int);
    }
    match last_slash(p, g) {
        None => Vec::new(),
        Some(c) => {
            if c == 0 {
                let mut r = Vec::new();
                r.push(SLASH);
                assert(r@ == seq![SLASH]);
                r
            } else {
                copy_range(p, 0, c)
            }
        },
    }
}

/// The base of an installation from `src`.
fn install_base(src: &[u8], kind: EntryKind) -> (r: Option<Vec<u8>>)
    ensures
        match r {
            None => spec_install_base(src@, kind) is None,
            Some(b) => spec_install_base(src@, kind) == Some(b@),
        },
{
    if kind == EntryKind::Dir {
        Some(vstd::slice::slice_to_vec(src))
    } else if is_glob_pattern(src) {
        Some(literal_dir_of(src))
    } else {
        None
    }
}

/// Whether `a` and `b` are the same bytes.
fn same_bytes(a: &[u8], b: &[u8]) -> (r: bool)
    ensures
        r == (a@ == b@),
{
    if a.len() != b.len() {
        return false;
    }
    let mut i: usize = 0;
    while i < a.len()
        invariant
            a@.len() == b@.len(),
            i <= a@.len(),
            forall|j: int| 0 <= j < i ==> a@[j] == b@[j],
        decreases a@.len() - i,
    {
        if a[i] != b[i] {
            return false;
        }
        i += 1;
    }
    assert(a@ =~= b@);
    true
}

/// Whether `r` is a clean relative path.
fn clean_relative(r: &[u8]) -> (b: bool)
    ensures
        b == is_clean_relative(r@),
{
    let n = r.len();
    if n > 0 && r[0] == SLASH {
        return false;
    }
    let mut i: usize = 0;
    while i < n
        invariant
            n == r@.len(),
            i <= n,
            n > 0 ==> r@[0] != SLASH,
            forall|j: int|
                0 <= j < i && (j == 0 || r@[j - 1] == SLASH) ==> !#[trigger] starts_dot_component(
                    r@,
                    j,
                ),
        decreases n - i,
    {
        if (i == 0 || r[i - 1] == SLASH) && r[i] == DOT {
            if i + 1 == n || r[i + 1] == SLASH {
                assert(starts_dot_component(r@, i as int));
                return false;
            }
            if r[i + 1] == DOT && (i + 2 == n || r[i + 2] == SLASH) {
                assert(starts_dot_component(r@, i as int));
                return false;
            }
        }
        i += 1;
    }
    true
}

/// Where the found entry `p` lands below the destination.
fn landing_of(base: &Option<Vec<u8>>, p: &[u8]) -> (r: Vec<u8>)
    ensures
        r@ == landing(
            match base {
                Some(b) => Some(b@),
                None => None,
            },
            p@,
        ),
{
    let below = match base {
        None => None,
        Some(b) => {
            let n = b.len();
            let ends = n == 0 || b[n - 1] == SLASH;
            let ghost pre = dir_prefix(b@);
            let mut found: Option<Vec<u8>> = None;
            if n < p.len() && same_bytes(vstd::slice::slice_subrange(p, 0, n), b.as_slice()) && (
            ends || p[n] == SLASH) {
                let plen = if ends {
                    n
                } else {
                    n + 1
                };
                assert(pre.len() == plen);
                if plen < p.len() {
                    let rest = copy_range(p, plen, p.len());
                    if clean_relative(rest.as_slice()) {
                        proof {
                            assert(p@.take(plen as int) =~= pre);
                            assert(rest@ == p@.skip(plen as int));
                        }
                        found = Some(rest);
                    }
                }
            }
            proof {
                if found is None && pre.len() < p@.len() && p@.take(pre.len() as int) == pre
                    && is_clean_relative(p@.skip(pre.len() as int)) {
                    assert(p@.subrange(0, n as int) =~= b@);
                    if !ends {
                        assert(p@[n as int] == pre[n as int]);
                    }
                    assert(p@.subrange(pre.len() as int, p@.len() as int) == p@.skip(
                        pre.len() as int,
                    ));
                }
            }
            found
        },
    };
    match below {
        Some(r) => r,
        None => match file_name(p) {
            Some(n) => n,
            None => Vec::new(),
        },
    }
}

/// Plans the installation into `dst_dir` of the `sources` found for `src`,
/// where `kind` is what `src` names on disk: refused when nothing was
/// found; otherwise the destination is made and every source is installed
/// in order at the path it has below the searched directory (under its own
/// name for a single file, or when that path is not a clean relative one):
/// a directory is made when `src` is a directory and left out for a glob
/// pattern, a file is copied after its parent directory is made, and a file
/// whose target is spelled as itself is left alone.
pub fn install_plan(src: &[u8], kind: EntryKind, dst_dir: &[u8], sources: &Vec<FoundPath>) -> (r:
    Result<Vec<InstallStep>, InstallError>)
    ensures
        r is Err <==> sources@.len() == 0,
        r matches Err(InstallError::NoSourceFiles(p)) ==> p@ == src@,
        r matches Ok(steps) ==> steps@.len() > 0 && steps@[0]@ == StepView::MakeDir(dst_dir@),
        r matches Ok(steps) ==> steps_view(steps@) == plan_steps(
            spec_install_base(src@, kind),
            kind == EntryKind::Dir,
            dst_dir@,
            sources@,
        ),
{
    if sources.len() == 0 {
        return Err(InstallError::NoSourceFiles(vstd::slice::slice_to_vec(src)));
    }
    let base = install_base(src, kind);
    let ghost sbase = spec_install_base(src@, kind);
    let dirs = kind == EntryKind::Dir;
    let mut steps: Vec<InstallStep> = Vec::new();
    steps.push(InstallStep::MakeDir(vstd::slice::slice_to_vec(dst_dir)));
    assert(steps_view(steps@) =~= plan_steps(sbase, dirs, dst_dir@, sources@.take(0)));
    for i in 0..sources.len()
        invariant
            sbase == match base {
                Some(b) => Some(b@),
                None => None,
            },
            steps_view(steps@) == plan_steps(sbase, dirs, dst_dir@, sources@.take(i as int)),
    {
        assert(sources@.take(i + 1).drop_last() == sources@.take(i as int));
        let source = &sources[i];
        let path = source.path.as_slice();
        let rel = landing_of(&base, path);
        let to = join(dst_dir, rel.as_slice());
        let ghost old_steps = steps_view(steps@);
        if source.kind == EntryKind::Dir {
            if dirs {
                steps.push(InstallStep::MakeDir(to));
            }
        } else if same_bytes(to.as_slice(), path) {
        } else {
            match last_slash(rel.as_slice(), rel.len()) {
                Some(c) => {
                    proof {
                        assert(rel@.take(rel@.len() as int) == rel@);
                    }
                    let parent = join(dst_dir, copy_range(rel.as_slice(), 0, c).as_slice());
                    steps.push(InstallStep::MakeDir(parent));
                },
                None => {
                    proof {
                        assert(rel@.take(rel@.len() as int) == rel@);
                    }
                },
            }
            steps.push(InstallStep::Copy { from: vstd::slice::slice_to_vec(path), to });
        }
        assert(steps_view(steps@) =~= old_steps + entry_steps(sbase, dirs, dst_dir@, sources@[i as int]));
    }
    assert(sources@.take(sources@.len() as int) == sources@);
    proof {
        lemma_plan_starts_with_destination(sbase, dirs, dst_dir@, sources@);
        assert(steps@[0]@ == steps_view(steps@)[0]);
    }
    Ok(steps)
}


/// The folder structure is kept: an entry at the clean relative path `r`
/// below the base lands at `r` below the destination.
pub proof fn lemma_structure_kept(base: Seq<u8>, r: Seq<u8>)
    requires
        r.len() > 0,
        is_clean_relative(r),
    ensures
        landing(Some(base), spec_join(base, r)) == r,
{
    let pre = dir_prefix(base);
    let p = spec_join(base, r);
    assert(p == pre + r);
    assert(p.take(pre.len() as int) == pre);
    assert(p.skip(pre.len() as int) == r);
}

/// A single file lands directly in the destination under its own name.
pub proof fn lemma_single_file_keeps_name(dst: Seq<u8>, p: Seq<u8>)
    requires
        spec_file_name(p) is Some,
    ensures
        spec_file_name(spec_join(dst, landing(None, p))) == spec_file_name(p),
{
    lemma_file_name_is_plain(p);
    lemma_join_file_name(dst, spec_file_name(p)->0);
}

/// No planned copy has a target spelled as its source.
pub proof fn lemma_no_self_copy(
    base: Option<Seq<u8>>,
    dirs: bool,
    dst: Seq<u8>,
    sources: Seq<FoundPath>,
)
    ensures
        forall|k: int|
            0 <= k < plan_steps(base, dirs, dst, sources).len() ==> (#[trigger] plan_steps(
                base,
                dirs,
                dst,
                sources,
            )[k] matches StepView::Copy(from, to) ==> from != to),
    decreases sources.len(),
{
    if sources.len() > 0 {
        lemma_no_self_copy(base, dirs, dst, sources.drop_last());
        let init = plan_steps(base, dirs, dst, sources.drop_last());
        let last = entry_steps(base, dirs, dst, sources.last());
        let all = plan_steps(base, dirs, dst, sources);
        assert forall|k: int| 0 <= k < all.len() implies (#[trigger] all[k] matches StepView::Copy(
            from,
            to,
        ) ==> from != to) by {
            if k < init.len() {
                assert(all[k] == init[k]);
            } else {
                assert(all[k] == last[k - init.len()]);
            }
        }
    }
}

/// A plain component is a clean relative path.
proof fn lemma_plain_is_clean(n: Seq<u8>)
    requires
        is_plain_component(n),
    ensures
        is_clean_relative(n),
{
    assert forall|i: int| 0 <= i < n.len() && (i == 0 || n[i - 1] == SLASH) implies !#[trigger] starts_dot_component(
        n,
        i,
    ) by {
        if i > 0 {
            assert(n[i - 1] != SLASH);
        }
        if starts_dot_component(n, 0) {
            if n.len() == 1 {
                assert(n == seq![DOT]);
            } else if n[1] == DOT && n.len() == 2 {
                assert(n == seq![DOT, DOT]);
            } else if n[1] == DOT {
                assert(n[2] != SLASH);
            } else {
                assert(n[1] != SLASH);
            }
        }
    }
}

/// Where an entry lands below the destination is always a clean relative
/// path.
pub proof fn lemma_landing_is_clean(base: Option<Seq<u8>>, p: Seq<u8>)
    ensures
        is_clean_relative(landing(base, p)),
{
    lemma_file_name_is_plain(p);
    if spec_file_name(p) is Some {
        lemma_plain_is_clean(spec_file_name(p)->0);
    }
}

proof fn lemma_before_last_slash_prefix(p: Seq<u8>)
    ensures
        before_last_slash(p) matches Some(d) ==> d.len() < p.len() && d == p.take(d.len() as int)
            && p[d.len() as int] == SLASH,
    decreases p.len(),
{
    if p.len() > 0 && p.last() != SLASH {
        lemma_before_last_slash_prefix(p.drop_last());
        match before_last_slash(p.drop_last()) {
            Some(d) => {
                assert(d == p.take(d.len() as int));
            },
            None => {},
        }
    }
}

/// The part of a clean relative path before its last `/` is clean too.
pub proof fn lemma_parent_is_clean(r: Seq<u8>)
    requires
        is_clean_relative(r),
    ensures
        before_last_slash(r) matches Some(d) ==> is_clean_relative(d),
{
    lemma_before_last_slash_prefix(r);
    match before_last_slash(r) {
        Some(d) => {
        let c = d.len() as int;
        assert forall|i: int| 0 <= i < d.len() && (i == 0 || d[i - 1] == SLASH) implies !#[trigger] starts_dot_component(
            d,
            i,
        ) by {
            assert(d[i] == r[i]);
            if i > 0 {
                assert(d[i - 1] == r[i - 1]);
            }
            if i + 1 < c {
                assert(d[i + 1] == r[i + 1]);
            }
            if i + 2 < c {
                assert(d[i + 2] == r[i + 2]);
            }
            assert(!starts_dot_component(r, i));
        }
        if d.len() > 0 {
            assert(d[0] == r[0]);
        }
        },
        None => {},
    }
}

/// A target that lies below `dst`: `dst` joined with a clean relative path.
pub open spec fn lies_below(dst: Seq<u8>, t: Seq<u8>) -> bool {
    exists|r: Seq<u8>| is_clean_relative(r) && t == #[trigger] spec_join(dst, r)
}

/// Every directory a plan makes is the destination itself or lies below it,
/// and every file it copies lands below it.
pub proof fn lemma_targets_below_destination(
    base: Option<Seq<u8>>,
    dirs: bool,
    dst: Seq<u8>,
    sources: Seq<FoundPath>,
)
    ensures
        forall|k: int|
            0 <= k < plan_steps(base, dirs, dst, sources).len() ==> match #[trigger] plan_steps(
                base,
                dirs,
                dst,
                sources,
            )[k] {
                StepView::MakeDir(t) => t == dst || lies_below(dst, t),
                StepView::Copy(_, t) => lies_below(dst, t),
            },
    decreases sources.len(),
{
    if sources.len() > 0 {
        lemma_targets_below_destination(base, dirs, dst, sources.drop_last());
        let init = plan_steps(base, dirs, dst, sources.drop_last());
        let s = sources.last();
        let last = entry_steps(base, dirs, dst, s);
        let all = plan_steps(base, dirs, dst, sources);
        let rel = landing(base, s.path@);
        lemma_landing_is_clean(base, s.path@);
        lemma_parent_is_clean(rel);
        assert(lies_below(dst, spec_join(dst, rel)));
        match before_last_slash(rel) {
            Some(d) => {
                assert(lies_below(dst, spec_join(dst, d)));
            },
            None => {},
        }
        assert forall|k: int| 0 <= k < all.len() implies match #[trigger] all[k] {
            StepView::MakeDir(t) => t == dst || lies_below(dst, t),
            StepView::Copy(_, t) => lies_below(dst, t),
        } by {
            if k < init.len() {
                assert(all[k] == init[k]);
            } else {
                assert(all[k] == last[k - init.len()]);
            }
        }
    }
}


/// Every plan starts by making the destination directory, whatever the
/// sources and however the destination is spelled.
pub proof fn lemma_plan_starts_with_destination(
    base: Option<Seq<u8>>,
    dirs: bool,
    dst: Seq<u8>,
    sources: Seq<FoundPath>,
)
    ensures
        plan_steps(base, dirs, dst, sources).len() > 0,
        plan_steps(base, dirs, dst, sources)[0] == StepView::MakeDir(dst),
    decreases sources.len(),
{
    if sources.len() > 0 {
        lemma_plan_starts_with_destination(base, dirs, dst, sources.drop_last());
    }
}

/// The directory made before copying a file that lands at `rel` below
/// `dst`, when it lands deeper than directly inside it.
pub open spec fn parent_made(dst: Seq<u8>, rel: Seq<u8>) -> Option<Seq<u8>> {
    match before_last_slash(rel) {
        Some(d) => Some(spec_join(dst, d)),
        None => None,
    }
}

/// Whether the steps copy `from` to `to`, right after making the directory
/// `parent` when there is one.
pub open spec fn copied_after_parent(
    steps: Seq<StepView>,
    from: Seq<u8>,
    to: Seq<u8>,
    parent: Option<Seq<u8>>,
) -> bool {
    exists|k: int|
        0 <= k < steps.len() && #[trigger] steps[k] == StepView::Copy(from, to) && (
        parent matches Some(d) ==> k > 0 && steps[k - 1] == StepView::MakeDir(d))
}

/// No file is lost: every source that is not a directory is copied to where
/// it lands below the destination, right after the directory it lands in
/// is made when that lies deeper, unless the target is spelled as the
/// source itself.
pub proof fn lemma_every_file_copied(
    base: Option<Seq<u8>>,
    dirs: bool,
    dst: Seq<u8>,
    sources: Seq<FoundPath>,
)
    ensures
        forall|j: int|
            0 <= j < sources.len() && #[trigger] sources[j].kind != EntryKind::Dir ==> {
                let rel = landing(base, sources[j].path@);
                let to = spec_join(dst, rel);
                to == sources[j].path@ || copied_after_parent(
                    plan_steps(base, dirs, dst, sources),
                    sources[j].path@,
                    to,
                    parent_made(dst, rel),
                )
            },
    decreases sources.len(),
{
    if sources.len() > 0 {
        let init = sources.drop_last();
        lemma_every_file_copied(base, dirs, dst, init);
        let pinit = plan_steps(base, dirs, dst, init);
        let last = entry_steps(base, dirs, dst, sources.last());
        let all = plan_steps(base, dirs, dst, sources);
        assert(all == pinit + last);
        assert forall|j: int| 0 <= j < sources.len() && #[trigger] sources[j].kind != EntryKind::Dir implies {
            let rel = landing(base, sources[j].path@);
            let to = spec_join(dst, rel);
            to == sources[j].path@ || copied_after_parent(all, sources[j].path@, to, parent_made(dst, rel))
        } by {
            let s = sources[j];
            let rel = landing(base, s.path@);
            let to = spec_join(dst, rel);
            let par = parent_made(dst, rel);
            if j < init.len() {
                assert(init[j] == s);
                if to != s.path@ {
                    assert(copied_after_parent(pinit, s.path@, to, par));
                    let k = choose|k: int|
                        0 <= k < pinit.len() && #[trigger] pinit[k] == StepView::Copy(s.path@, to)
                            && (par matches Some(d) ==> k > 0 && pinit[k - 1] == StepView::MakeDir(d));
                    assert(all[k] == pinit[k]);
                    if k > 0 {
                        assert(all[k - 1] == pinit[k - 1]);
                    }
                }
            } else {
                assert(s == sources.last());
                if to != s.path@ {
                    let k = all.len() - 1;
                    assert(all[k] == last[last.len() - 1]);
                    if par is Some {
                        assert(all[k - 1] == last[last.len() - 2]);
                    }
                }
            }
        }
    }
}

/// For a directory source every directory found is made below the
/// destination, at the path it has below the source.
pub proof fn lemma_every_dir_made(base: Option<Seq<u8>>, dst: Seq<u8>, sources: Seq<FoundPath>)
    ensures
        forall|j: int|
            0 <= j < sources.len() && #[trigger] sources[j].kind == EntryKind::Dir ==> exists|k: int|
                0 <= k < plan_steps(base, true, dst, sources).len() && plan_steps(
                    base,
                    true,
                    dst,
                    sources,
                )[k] == StepView::MakeDir(spec_join(dst, landing(base, sources[j].path@))),
    decreases sources.len(),
{
    if sources.len() > 0 {
        let init = sources.drop_last();
        lemma_every_dir_made(base, dst, init);
        let pinit = plan_steps(base, true, dst, init);
        let last = entry_steps(base, true, dst, sources.last());
        let all = plan_steps(base, true, dst, sources);
        assert(all == pinit + last);
        assert forall|j: int| 0 <= j < sources.len() && #[trigger] sources[j].kind == EntryKind::Dir implies exists|k: int|
            0 <= k < all.len() && all[k] == StepView::MakeDir(
                spec_join(dst, landing(base, sources[j].path@)),
            ) by {
            let t = StepView::MakeDir(spec_join(dst, landing(base, sources[j].path@)));
            if j < init.len() {
                assert(init[j] == sources[j]);
                let k = choose|k: int| 0 <= k < pinit.len() && pinit[k] == t;
                assert(all[k] == pinit[k]);
            } else {
                assert(sources[j] == sources.last());
                assert(all[all.len() - 1] == t);
            }
        }
    }
}

/// The sources that are not directories, in order.
pub open spec fn non_dirs(sources: Seq<FoundPath>) -> Seq<FoundPath>
    decreases sources.len(),
{
    if sources.len() == 0 {
        seq![]
    } else if sources.last().kind == EntryKind::Dir {
        non_dirs(sources.drop_last())
    } else {
        non_dirs(sources.drop_last()).push(sources.last())
    }
}

/// For a glob source the directories that the walk lists add nothing: the
/// plan is the one for the files alone.
pub proof fn lemma_glob_ignores_directories(
    base: Option<Seq<u8>>,
    dst: Seq<u8>,
    sources: Seq<FoundPath>,
)
    ensures
        plan_steps(base, false, dst, sources) == plan_steps(base, false, dst, non_dirs(sources)),
    decreases sources.len(),
{
    if sources.len() > 0 {
        lemma_glob_ignores_directories(base, dst, sources.drop_last());
        let nd = non_dirs(sources);
        if sources.last().kind == EntryKind::Dir {
            assert(entry_steps(base, false, dst, sources.last()) == Seq::<StepView>::empty());
            assert(plan_steps(base, false, dst, sources) == plan_steps(
                base,
                false,
                dst,
                sources.drop_last(),
            ) + Seq::<StepView>::empty());
        } else {
            assert(nd.drop_last() == non_dirs(sources.drop_last()));
            assert(nd.last() == sources.last());
        }
    }
}

proof fn lemma_first_glob_bounds(p: Seq<u8>)
    ensures
        first_glob(p) <= p.len(),
        forall|j: int| 0 <= j < first_glob(p) ==> !is_glob_byte(#[trigger] p[j]),
    decreases p.len(),
{
    if p.len() > 0 && !is_glob_byte(p[0]) {
        lemma_first_glob_bounds(p.drop_first());
        assert forall|j: int| 0 <= j < first_glob(p) implies !is_glob_byte(#[trigger] p[j]) by {
            if j > 0 {
                assert(p[j] == p.drop_first()[j - 1]);
            }
        }
    }
}

proof fn lemma_no_slash_after_last(p: Seq<u8>)
    ensures
        match before_last_slash(p) {
            Some(d) => forall|j: int| d.len() < j < p.len() ==> #[trigger] p[j] != SLASH,
            None => forall|j: int| 0 <= j < p.len() ==> #[trigger] p[j] != SLASH,
        },
    decreases p.len(),
{
    if p.len() > 0 && p.last() != SLASH {
        let q = p.drop_last();
        lemma_no_slash_after_last(q);
        match before_last_slash(q) {
            Some(d) => {
                assert forall|j: int| d.len() < j < p.len() implies #[trigger] p[j] != SLASH by {
                    if j < q.len() {
                        assert(p[j] == q[j]);
                    }
                }
            },
            None => {
                assert forall|j: int| 0 <= j < p.len() implies #[trigger] p[j] != SLASH by {
                    if j < q.len() {
                        assert(p[j] == q[j]);
                    }
                }
            },
        }
    }
}

/// The directory in which a glob pattern starts to match is the longest
/// leading run of whole components that holds no glob metacharacter: it is
/// a prefix of the pattern, no metacharacter comes before the end of it,
/// and between it and the first metacharacter there is no further `/`.
pub proof fn lemma_literal_dir(p: Seq<u8>)
    ensures
        literal_dir(p).len() <= first_glob(p),
        literal_dir(p) == p.take(literal_dir(p).len() as int),
        forall|j: int| 0 <= j < literal_dir(p).len() ==> !is_glob_byte(#[trigger] p[j]),
        forall|j: int| literal_dir(p).len() < j < first_glob(p) ==> #[trigger] p[j] != SLASH,
        literal_dir(p).len() == 0 ==> forall|j: int| 0 <= j < first_glob(p) ==> #[trigger] p[j] != SLASH,
        literal_dir(p).len() > 0 && literal_dir(p) != seq![SLASH] ==> p[literal_dir(p).len() as int] == SLASH,
{
    let g = first_glob(p);
    lemma_first_glob_bounds(p);
    let h = p.take(g as int);
    lemma_before_last_slash_prefix(h);
    lemma_no_slash_after_last(h);
    match before_last_slash(h) {
        Some(d) => {
            if d.len() == 0 {
                assert(h[0] == SLASH);
                assert(literal_dir(p) == seq![SLASH]);
                assert(p.take(1) == seq![SLASH]);
                assert forall|j: int| 1 < j < g implies #[trigger] p[j] != SLASH by {
                    assert(h[j] == p[j]);
                }
            } else {
                assert(literal_dir(p) == d);
                assert(d == p.take(d.len() as int));
                assert(p[d.len() as int] == h[d.len() as int]);
                assert forall|j: int| d.len() < j < g implies #[trigger] p[j] != SLASH by {
                    assert(h[j] == p[j]);
                }
            }
        },
        None => {
            assert(literal_dir(p) == Seq::<u8>::empty());
            assert forall|j: int| 0 <= j < g implies #[trigger] p[j] != SLASH by {
                assert(h[j] == p[j]);
            }
        },
    }
}

/// Escaping leaves a byte that glob patterns give no meaning to as it is.
proof fn lemma_escape_push(d: Seq<u8>, c: u8)
    requires
        !needs_escape(c),
    ensures
        spec_escape(d.push(c)) == spec_escape(d).push(c),
{
    assert(d.push(c).drop_last() == d);
}

proof fn lemma_escape_last(d: Seq<u8>)
    requires
        d.len() > 0,
        d.last() != SLASH,
    ensures
        spec_escape(d).len() > 0,
        spec_escape(d).last() != SLASH,
{
}

/// A directory source is searched recursively, everything below it: the
/// pattern is the directory's literal name followed by `/**/*`, the same
/// whether or not the directory is spelled with a trailing `/`.
pub proof fn lemma_directory_searched_recursively(dir: Seq<u8>)
    ensures
        everything_below(dir).len() >= 4,
        everything_below(dir).skip(everything_below(dir).len() - 4) == seq![
            STAR,
            STAR,
            SLASH,
            STAR,
        ],
        everything_below(dir).take(spec_escape(dir).len() as int) == spec_escape(dir),
        dir.len() > 0 && dir.last() != SLASH ==> everything_below(dir) == everything_below(
            dir.push(SLASH),
        ),
{
    let e = spec_escape(dir);
    let tail = seq![STAR, STAR, SLASH, STAR];
    let r = everything_below(dir);
    if e.len() == 0 || e.last() == SLASH {
        assert(r == e + tail);
    } else {
        assert(r == e + seq![SLASH] + tail);
    }
    assert(r.skip(r.len() - 4) == tail);
    assert(r.take(e.len() as int) == e);
    if dir.len() > 0 && dir.last() != SLASH {
        lemma_escape_last(dir);
        lemma_escape_push(dir, SLASH);
        assert(everything_below(dir.push(SLASH)) == e.push(SLASH) + tail);
        assert(r == e + seq![SLASH] + tail);
    }
}

} // verus!
