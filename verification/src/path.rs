//! Paths as byte strings, with `/` as the separator.
//!
//! A path is held as the bytes of its name on disk, so that names that are
//! not UTF-8 pass through unchanged. Every byte that the path syntax gives a
//! meaning (`/`, `.`, and the glob characters) is ASCII, and ASCII bytes
//! never occur inside the encoding of another character.

use vstd::prelude::*;

verus! {

/// The path separator, `/`.
pub const SLASH: u8 = 47;
/// `.`, which starts an extension and names the current directory.
pub const DOT: u8 = 46;
/// `*`, which matches any run of characters in a glob pattern.
pub const STAR: u8 = 42;
/// `?`, which matches any one character in a glob pattern.
pub const QUESTION: u8 = 63;
/// `[`, which opens a character class in a glob pattern.
pub const OPEN_BRACKET: u8 = 91;
/// `]`, which closes a character class in a glob pattern.
pub const CLOSE_BRACKET: u8 = 93;

/// Whether `c` is one of the bytes that make a path a glob pattern.
pub open spec fn is_glob_byte(c: u8) -> bool {
    c == STAR || c == QUESTION || c == OPEN_BRACKET
}

/// A path is a glob pattern when it holds `*`, `?` or `[`.
pub open spec fn spec_is_glob_pattern(p: Seq<u8>) -> bool {
    exists|i: int| 0 <= i < p.len() && is_glob_byte(#[trigger] p[i])
}

/// Whether `path` holds any of the glob characters `*`, `?` or `[`.
pub fn is_glob_pattern(path: &[u8]) -> (b: bool)
    ensures
        b == spec_is_glob_pattern(path@),
{
    let mut i: usize = 0;
    while i < path.len()
        invariant
            i <= path@.len(),
            forall|j: int| 0 <= j < i ==> !is_glob_byte(#[trigger] path@[j]),
        decreases path@.len() - i,
    {
        if path[i] == STAR || path[i] == QUESTION || path[i] == OPEN_BRACKET {
            return true;
        }
        i += 1;
    }
    false
}

/// `v` with the bytes of `tail` appended.
fn append(v: &mut Vec<u8>, tail: &[u8])
    ensures
        final(v)@ == old(v)@ + tail@,
{
    let ghost start = v@;
    for i in 0..tail.len()
        invariant
            v@ == start + tail@.take(i as int),
    {
        v.push(tail[i]);
        assert(tail@.take(i + 1) == tail@.take(i as int).push(tail@[i as int]));
    }
    assert(tail@.take(tail@.len() as int) == tail@);
}

/// The bytes of `s[from..to]`, as a new vector.
pub(crate) fn copy_range(s: &[u8], from: usize, to: usize) -> (r: Vec<u8>)
    requires
        from <= to <= s@.len(),
    ensures
        r@ == s@.subrange(from as int, to as int),
{
    vstd::slice::slice_to_vec(vstd::slice::slice_subrange(s, from, to))
}

/// What joining `name` onto `base` gives: an absolute `name` replaces
/// `base`; otherwise `name` is appended, with a `/` between the two unless
/// `base` is empty or already ends with one.
pub open spec fn spec_join(base: Seq<u8>, name: Seq<u8>) -> Seq<u8> {
    if name.len() > 0 && name[0] == SLASH {
        name
    } else if base.len() == 0 || base.last() == SLASH {
        base + name
    } else {
        base + seq![SLASH] + name
    }
}

/// Joins `name` onto the path `base`, as `Path::join` does with `/` as the
/// separator.
pub fn join(base: &[u8], name: &[u8]) -> (r: Vec<u8>)
    ensures
        r@ == spec_join(base@, name@),
{
    if name.len() > 0 && name[0] == SLASH {
        return vstd::slice::slice_to_vec(name);
    }
    let mut r = vstd::slice::slice_to_vec(base);
    if base.len() > 0 && base[base.len() - 1] != SLASH {
        r.push(SLASH);
    }
    append(&mut r, name);
    r
}

/// Whether `c` is a byte that glob patterns give a meaning to.
pub open spec fn needs_escape(c: u8) -> bool {
    c == STAR || c == QUESTION || c == OPEN_BRACKET || c == CLOSE_BRACKET
}

/// `p` with every `*`, `?`, `[` and `]` put between brackets, so that a
/// glob pattern built on it matches it literally (what
/// `glob::Pattern::escape` does).
pub open spec fn spec_escape(p: Seq<u8>) -> Seq<u8>
    decreases p.len(),
{
    if p.len() == 0 {
        seq![]
    } else if needs_escape(p.last()) {
        spec_escape(p.drop_last()) + seq![OPEN_BRACKET, p.last(), CLOSE_BRACKET]
    } else {
        spec_escape(p.drop_last()).push(p.last())
    }
}

/// Escapes the glob metacharacters of `p`, so that a pattern built on it
/// matches `p` literally.
pub fn escape(p: &[u8]) -> (r: Vec<u8>)
    ensures
        r@ == spec_escape(p@),
{
    let mut r: Vec<u8> = Vec::new();
    for i in 0..p.len()
        invariant
            r@ == spec_escape(p@.take(i as int)),
    {
        let c = p[i];
        assert(p@.take(i + 1).drop_last() == p@.take(i as int));
        if c == STAR || c == QUESTION || c == OPEN_BRACKET || c == CLOSE_BRACKET {
            r.push(OPEN_BRACKET);
            r.push(c);
            r.push(CLOSE_BRACKET);
            assert(r@ =~= spec_escape(p@.take(i + 1)));
        } else {
            r.push(c);
        }
    }
    assert(p@.take(p@.len() as int) == p@);
    r
}

/// A path with no glob metacharacter and no `]` is its own escape.
pub proof fn lemma_escape_plain(p: Seq<u8>)
    requires
        forall|i: int| 0 <= i < p.len() ==> !needs_escape(#[trigger] p[i]),
    ensures
        spec_escape(p) == p,
    decreases p.len(),
{
    if p.len() > 0 {
        assert(!needs_escape(p[p.len() - 1]));
        lemma_escape_plain(p.drop_last());
        assert(p.drop_last().push(p.last()) == p);
    }
}

/// The bytes after the last `/` of `p` (all of `p` when it holds none).
pub open spec fn last_segment(p: Seq<u8>) -> Seq<u8>
    decreases p.len(),
{
    if p.len() == 0 || p.last() == SLASH {
        seq![]
    } else {
        last_segment(p.drop_last()).push(p.last())
    }
}

/// The final component of the path `p`, as `Path::file_name` gives it:
/// trailing separators and `.` components are passed over; a path that ends
/// in `..`, or has no component left, has none.
pub open spec fn spec_file_name(p: Seq<u8>) -> Option<Seq<u8>>
    decreases p.len(),
{
    if p.len() == 0 {
        None
    } else if p.last() == SLASH {
        spec_file_name(p.drop_last())
    } else if last_segment(p) == seq![DOT] {
        spec_file_name(p.drop_last())
    } else if last_segment(p) == seq![DOT, DOT] {
        None
    } else {
        Some(last_segment(p))
    }
}

/// The extension of a file name: what follows its last `.`, unless that `.`
/// is the first byte of the name or there is none.
pub open spec fn name_extension(n: Seq<u8>) -> Option<Seq<u8>>
    decreases n.len(),
{
    if n.len() == 0 {
        None
    } else if n.last() == DOT {
        if n.len() == 1 {
            None
        } else {
            Some(seq![])
        }
    } else {
        match name_extension(n.drop_last()) {
            Some(e) => Some(e.push(n.last())),
            None => None,
        }
    }
}

/// The extension of the path `p`, as `Path::extension` gives it.
pub open spec fn spec_extension(p: Seq<u8>) -> Option<Seq<u8>> {
    match spec_file_name(p) {
        Some(n) => name_extension(n),
        None => None,
    }
}

/// A component is plain when it is not empty, holds no `/` and is neither
/// `.` nor `..`.
pub open spec fn is_plain_component(n: Seq<u8>) -> bool {
    &&& n.len() > 0
    &&& forall|i: int| 0 <= i < n.len() ==> #[trigger] n[i] != SLASH
    &&& n != seq![DOT]
    &&& n != seq![DOT, DOT]
}

proof fn lemma_last_segment_split(p: Seq<u8>, k: int, end: int)
    requires
        0 <= k <= end <= p.len(),
        forall|i: int| k <= i < end ==> #[trigger] p[i] != SLASH,
    ensures
        last_segment(p.take(end)) == last_segment(p.take(k)) + p.subrange(k, end),
    decreases end - k,
{
    if k < end {
        lemma_last_segment_split(p, k, end - 1);
        assert(p.take(end).drop_last() == p.take(end - 1));
        assert(p.subrange(k, end) == p.subrange(k, end - 1).push(p[end - 1]));
    } else {
        assert(p.subrange(k, end) == Seq::<u8>::empty());
    }
}

proof fn lemma_last_segment_no_sep(p: Seq<u8>)
    ensures
        forall|i: int| 0 <= i < last_segment(p).len() ==> #[trigger] last_segment(p)[i] != SLASH,
        last_segment(p).len() <= p.len(),
    decreases p.len(),
{
    if p.len() > 0 && p.last() != SLASH {
        lemma_last_segment_no_sep(p.drop_last());
    }
}

/// Where the last segment of `v[..end]` starts.
fn segment_start(v: &[u8], end: usize) -> (start: usize)
    requires
        end <= v@.len(),
    ensures
        start <= end,
        v@.subrange(start as int, end as int) == last_segment(v@.take(end as int)),
{
    let mut k = end;
    while k > 0 && v[k - 1] != SLASH
        invariant
            k <= end <= v@.len(),
            forall|i: int| k <= i < end ==> #[trigger] v@[i] != SLASH,
        decreases k,
    {
        k -= 1;
    }
    proof {
        lemma_last_segment_split(v@, k as int, end as int);
        if k > 0 {
            assert(v@.take(k as int).last() == v@[k - 1]);
        }
        assert(last_segment(v@.take(k as int)) == Seq::<u8>::empty());
    }
    k
}

/// The position of the final component of `v`, as a range of indices.
fn file_name_range(v: &[u8]) -> (r: Option<(usize, usize)>)
    ensures
        match r {
            Some((s, e)) => s <= e <= v@.len() && spec_file_name(v@) == Some(
                v@.subrange(s as int, e as int),
            ),
            None => spec_file_name(v@) is None,
        },
{
    let mut end = v.len();
    assert(v@.take(end as int) == v@);
    loop
        invariant
            end <= v@.len(),
            spec_file_name(v@) == spec_file_name(v@.take(end as int)),
        decreases end,
    {
        let ghost p = v@.take(end as int);
        if end == 0 {
            return None;
        }
        assert(p.drop_last() == v@.take(end - 1));
        if v[end - 1] == SLASH {
            end -= 1;
        } else {
            let start = segment_start(v, end);
            let ghost seg = v@.subrange(start as int, end as int);
            if end - start == 1 && v[start] == DOT {
                assert(seg == seq![DOT]);
                end -= 1;
            } else if end - start == 2 && v[start] == DOT && v[start + 1] == DOT {
                assert(seg == seq![DOT, DOT]);
                return None;
            } else {
                assert(seg != seq![DOT]) by {
                    if seg == seq![DOT] {
                        assert(seg.len() == 1 && seg[0] == DOT);
                    }
                }
                assert(seg != seq![DOT, DOT]) by {
                    if seg == seq![DOT, DOT] {
                        assert(seg.len() == 2 && seg[0] == DOT && seg[1] == DOT);
                    }
                }
                return Some((start, end));
            }
        }
    }
}

/// The final component of `path`, as `Path::file_name` gives it.
pub fn file_name(path: &[u8]) -> (r: Option<Vec<u8>>)
    ensures
        match r {
            Some(n) => spec_file_name(path@) == Some(n@),
            None => spec_file_name(path@) is None,
        },
{
    match file_name_range(path) {
        Some((s, e)) => Some(copy_range(path, s, e)),
        None => None,
    }
}

proof fn lemma_name_extension_split(n: Seq<u8>, d: int)
    requires
        0 <= d < n.len(),
        n[d] == DOT,
        forall|i: int| d < i < n.len() ==> #[trigger] n[i] != DOT,
    ensures
        name_extension(n) == if d == 0 {
            None::<Seq<u8>>
        } else {
            Some(n.subrange(d + 1, n.len() as int))
        },
    decreases n.len(),
{
    if d < n.len() - 1 {
        lemma_name_extension_split(n.drop_last(), d);
        assert(n.subrange(d + 1, n.len() as int) == n.drop_last().subrange(
            d + 1,
            n.len() - 1,
        ).push(n.last()));
    } else {
        assert(n.subrange(d + 1, n.len() as int) == Seq::<u8>::empty());
    }
}

proof fn lemma_name_extension_none(n: Seq<u8>)
    requires
        forall|i: int| 0 <= i < n.len() ==> #[trigger] n[i] != DOT,
    ensures
        name_extension(n) is None,
    decreases n.len(),
{
    if n.len() > 0 {
        lemma_name_extension_none(n.drop_last());
    }
}

/// The position of the extension of `v`, as a range of indices.
pub(crate) fn extension_range(v: &[u8]) -> (r: Option<(usize, usize)>)
    ensures
        match r {
            Some((s, e)) => s <= e <= v@.len() && spec_extension(v@) == Some(
                v@.subrange(s as int, e as int),
            ),
            None => spec_extension(v@) is None,
        },
{
    match file_name_range(v) {
        None => None,
        Some((s, e)) => {
            let ghost n = v@.subrange(s as int, e as int);
            let mut d = e;
            while d > s && v[d - 1] != DOT
                invariant
                    s <= d <= e <= v@.len(),
                    forall|i: int| d <= i < e ==> #[trigger] v@[i] != DOT,
                decreases d,
            {
                d -= 1;
            }
            if d == s {
                proof {
                    assert forall|i: int| 0 <= i < n.len() implies #[trigger] n[i] != DOT by {
                        assert(n[i] == v@[s + i]);
                    }
                    lemma_name_extension_none(n);
                }
                None
            } else {
                proof {
                    let k = d - 1 - s;
                    assert(n[k] == DOT);
                    assert forall|i: int| k < i < n.len() implies #[trigger] n[i] != DOT by {
                        assert(n[i] == v@[s + i]);
                    }
                    lemma_name_extension_split(n, k);
                    assert(n.subrange(k + 1, n.len() as int) == v@.subrange(d as int, e as int));
                }
                if d - 1 == s {
                    None
                } else {
                    Some((d, e))
                }
            }
        },
    }
}

/// The extension of `path`, as `Path::extension` gives it.
pub fn extension(path: &[u8]) -> (r: Option<Vec<u8>>)
    ensures
        match r {
            Some(x) => spec_extension(path@) == Some(x@),
            None => spec_extension(path@) is None,
        },
{
    match extension_range(path) {
        Some((s, e)) => Some(copy_range(path, s, e)),
        None => None,
    }
}

/// The final component of a path, when it has one, is a plain component.
pub proof fn lemma_file_name_is_plain(p: Seq<u8>)
    ensures
        spec_file_name(p) matches Some(n) ==> is_plain_component(n),
    decreases p.len(),
{
    if p.len() > 0 {
        if p.last() == SLASH || last_segment(p) == seq![DOT] {
            lemma_file_name_is_plain(p.drop_last());
        } else {
            lemma_last_segment_no_sep(p);
        }
    }
}

/// Joining a plain component onto any directory gives a path whose final
/// component is that component.
pub proof fn lemma_join_file_name(base: Seq<u8>, name: Seq<u8>)
    requires
        is_plain_component(name),
    ensures
        spec_file_name(spec_join(base, name)) == Some(name),
{
    let a = if base.len() == 0 || base.last() == SLASH {
        base
    } else {
        base + seq![SLASH]
    };
    let q = spec_join(base, name);
    assert(name[0] != SLASH);
    assert(q == a + name);
    assert(q.take(q.len() as int) == q);
    assert(q.take(a.len() as int) == a);
    assert forall|i: int| a.len() <= i < q.len() implies #[trigger] q[i] != SLASH by {
        assert(q[i] == name[i - a.len()]);
    }
    lemma_last_segment_split(q, a.len() as int, q.len() as int);
    assert(last_segment(a) == Seq::<u8>::empty());
    assert(q.subrange(a.len() as int, q.len() as int) == name);
    assert(q.last() == name[name.len() - 1]);
}


/// Joining a relative name keeps the base as it is and puts the name at
/// the end, with at most one `/` between them.
pub proof fn lemma_join_extends_base(base: Seq<u8>, name: Seq<u8>)
    requires
        name.len() == 0 || name[0] != SLASH,
    ensures
        spec_join(base, name).take(base.len() as int) == base,
        spec_join(base, name).skip(spec_join(base, name).len() - name.len()) == name,
        spec_join(base, name).len() == base.len() + name.len() || (spec_join(base, name).len()
            == base.len() + name.len() + 1 && spec_join(base, name)[base.len() as int] == SLASH),
{
    let r = spec_join(base, name);
    if base.len() == 0 || base.last() == SLASH {
        assert(r == base + name);
    } else {
        assert(r == base + seq![SLASH] + name);
    }
    assert(r.take(base.len() as int) == base);
    assert(r.skip(r.len() - name.len()) == name);
}

/// Trailing separators and a trailing `.` component do not change a path's
/// final component.
pub proof fn lemma_file_name_ignores_trailing(p: Seq<u8>)
    ensures
        spec_file_name(p.push(SLASH)) == spec_file_name(p),
        spec_file_name(p.push(SLASH).push(DOT)) == spec_file_name(p),
{
    let q = p.push(SLASH);
    assert(q.drop_last() == p);
    let r = q.push(DOT);
    assert(r.drop_last() == q);
    assert(last_segment(q) == Seq::<u8>::empty());
    assert(last_segment(r) == seq![DOT]);
}

/// A path is a glob pattern exactly when one of its bytes, wherever it
/// stands, is `*`, `?` or `[`.
pub proof fn lemma_glob_pattern_by_bytes(p: Seq<u8>)
    ensures
        spec_is_glob_pattern(p) <==> exists|i: int|
            0 <= i < p.len() && (#[trigger] p[i] == STAR || p[i] == QUESTION || p[i]
                == OPEN_BRACKET),
{
    if exists|i: int|
        0 <= i < p.len() && (#[trigger] p[i] == STAR || p[i] == QUESTION || p[i] == OPEN_BRACKET) {
        let i = choose|i: int|
            0 <= i < p.len() && (#[trigger] p[i] == STAR || p[i] == QUESTION || p[i]
                == OPEN_BRACKET);
        assert(is_glob_byte(p[i]));
    }
}

/// Appending `.ext` to a path that ends in a file name (not in `/` or in a
/// `.` component) gives it the extension `ext`, whatever came before.
pub proof fn lemma_extension_after_dot(b: Seq<u8>, ext: Seq<u8>)
    requires
        b.len() > 0,
        b.last() != SLASH,
        last_segment(b) != seq![DOT],
        forall|i: int| 0 <= i < ext.len() ==> #[trigger] ext[i] != SLASH && ext[i] != DOT,
    ensures
        spec_extension(b + seq![DOT] + ext) == Some(ext),
{
    let q = b + seq![DOT] + ext;
    let k: int = last_segment(b).len() as int;
    lemma_last_segment_no_sep(b);
    assert(q.take(q.len() as int) == q);
    assert(q.take(b.len() as int) == b);
    assert forall|i: int| b.len() <= i < q.len() implies #[trigger] q[i] != SLASH by {
        if i > b.len() {
            assert(q[i] == ext[i - b.len() - 1]);
        }
    }
    lemma_last_segment_split(q, b.len() as int, q.len() as int);
    let seg = last_segment(q);
    assert(seg == last_segment(b) + q.subrange(b.len() as int, q.len() as int));
    assert(q.subrange(b.len() as int, q.len() as int) == seq![DOT] + ext);
    assert(b.take(b.len() as int) == b);
    // the last segment of `b` is not empty, since `b` ends in another byte
    assert(last_segment(b) == last_segment(b.drop_last()).push(b.last()));
    assert(seg.len() >= 2);
    assert(q.last() != SLASH) by {
        if ext.len() > 0 {
            assert(q.last() == ext[ext.len() - 1]);
        }
    }
    assert(seg != seq![DOT]);
    assert(seg != seq![DOT, DOT]) by {
        if seg == seq![DOT, DOT] {
            assert(seg[k] == DOT);
            assert(k == 1);
            assert(ext.len() == 0);
            assert(seg[0] == last_segment(b)[0]);
            assert(last_segment(b) =~= seq![DOT]);
        }
    }
    assert(spec_file_name(q) == Some(seg));
    assert(seg[k] == DOT);
    assert forall|i: int| k < i < seg.len() implies #[trigger] seg[i] != DOT by {
        assert(seg[i] == ext[i - k - 1]);
    }
    lemma_name_extension_split(seg, k);
    assert(seg.subrange(k + 1, seg.len() as int) == ext);
}

} // verus!
