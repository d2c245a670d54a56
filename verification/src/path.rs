//! Unix path manipulation on character sequences: file names, stems and
//! extensions, joining.
use vstd::prelude::*;
use crate::text::{chars_of, string_of, push_str, extend_chars, chars_eq, split_on, lemma_split_on_nonempty, split_chars, views};

verus! {

/// Whether the `i`-th piece between separators is a component: empty pieces
/// (from repeated, leading or trailing separators) are not, nor is a `.`
/// other than a leading one.
pub open spec fn kept_piece(pieces: Seq<Seq<char>>, i: int) -> bool {
    pieces[i].len() > 0 && (pieces[i] != "."@ || i == 0)
}

/// The components among the first `n` pieces.
pub open spec fn kept_pieces(pieces: Seq<Seq<char>>, n: int) -> Seq<Seq<char>>
    decreases n,
{
    if n <= 0 {
        Seq::empty()
    } else {
        kept_pieces(pieces, n - 1) + if kept_piece(pieces, n - 1) {
            seq![pieces[n - 1]]
        } else {
            Seq::empty()
        }
    }
}

/// The named components of a path, as std `Path::components` documents
/// them: repeated separators are ignored, a trailing separator is ignored,
/// and `.` is dropped except at the beginning of a relative path.
pub open spec fn path_components(p: Seq<char>) -> Seq<Seq<char>> {
    kept_pieces(split_on(p, '/'), split_on(p, '/').len() as int)
}

/// The path starts at the root.
pub open spec fn is_absolute(p: Seq<char>) -> bool {
    p.len() > 0 && p[0] == '/'
}

/// Two paths are equal as std `Path` compares them: by their components.
pub open spec fn same_path(a: Seq<char>, b: Seq<char>) -> bool {
    is_absolute(a) == is_absolute(b) && path_components(a) == path_components(b)
}

/// The components of a path and whether it starts at the root.
fn components_of(p: &str) -> (r: (bool, Vec<Vec<char>>))
    ensures
        r.0 == is_absolute(p@),
        views(r.1@) == path_components(p@),
{
    let c = chars_of(p);
    let pieces = split_chars(&c, '/');
    let ghost ps = split_on(p@, '/');
    let dot = chars_of(".");
    let mut out: Vec<Vec<char>> = Vec::new();
    let mut i: usize = 0;
    assert(views(out@) =~= kept_pieces(ps, 0));
    while i < pieces.len()
        invariant
            i <= pieces@.len(),
            views(pieces@) == ps,
            dot@ == "."@,
            views(out@) == kept_pieces(ps, i as int),
        decreases pieces@.len() - i,
    {
        assert(ps[i as int] == pieces@[i as int]@);
        let keep = pieces[i].len() > 0 && (!chars_eq(&pieces[i], &dot) || i == 0);
        let ghost before = views(out@);
        if keep {
            out.push(pieces[i].clone());
            assert(views(out@) =~= before + seq![ps[i as int]]);
        } else {
            assert(before + Seq::<Seq<char>>::empty() =~= before);
        }
        i += 1;
    }
    (c.len() > 0 && c[0] == '/', out)
}

/// Whether two paths are equal as std `Path` compares them.
pub fn paths_equal(a: &str, b: &str) -> (r: bool)
    ensures
        r == same_path(a@, b@),
{
    let (abs_a, ca) = components_of(a);
    let (abs_b, cb) = components_of(b);
    assert(views(ca@).len() == ca@.len() && views(cb@).len() == cb@.len());
    if abs_a != abs_b {
        return false;
    }
    if ca.len() != cb.len() {
        assert(path_components(a@).len() != path_components(b@).len());
        return false;
    }
    let mut i: usize = 0;
    while i < ca.len()
        invariant
            i <= ca@.len(),
            ca@.len() == cb@.len(),
            views(ca@) == path_components(a@),
            views(cb@) == path_components(b@),
            forall|j: int| 0 <= j < i ==> ca@[j]@ == cb@[j]@,
        decreases ca@.len() - i,
    {
        if !chars_eq(&ca[i], &cb[i]) {
            assert(views(ca@)[i as int] != views(cb@)[i as int]);
            return false;
        }
        i += 1;
    }
    assert(views(ca@) =~= views(cb@));
    true
}

/// The index of the last occurrence of `c` in `s`, or -1.
pub open spec fn last_index_of(s: Seq<char>, c: char) -> int
    decreases s.len(),
{
    if s.len() == 0 {
        -1
    } else if s.last() == c {
        s.len() - 1
    } else {
        last_index_of(s.drop_last(), c)
    }
}

proof fn lemma_last_index_of(s: Seq<char>, c: char)
    ensures
        -1 <= last_index_of(s, c) < s.len(),
        last_index_of(s, c) >= 0 ==> s[last_index_of(s, c)] == c,
        forall|j: int| last_index_of(s, c) < j < s.len() ==> s[j] != c,
    decreases s.len(),
{
    if s.len() > 0 && s.last() != c {
        lemma_last_index_of(s.drop_last(), c);
        assert forall|j: int| last_index_of(s, c) < j < s.len() implies s[j] != c by {
            if j < s.len() - 1 {
                assert(s.drop_last()[j] == s[j]);
            }
        }
    }
}

/// std `Path::file_stem` and `Path::extension` of a file name: split at the
/// last dot, unless the name is `..`, has no dot, or its only dot is the
/// first character.
pub open spec fn stem_and_extension(name: Seq<char>) -> (Seq<char>, Option<Seq<char>>) {
    let i = last_index_of(name, '.');
    if name == ".."@ || i <= 0 {
        (name, None)
    } else {
        (name.take(i), Some(name.skip(i + 1)))
    }
}

/// Splits a file name into stem and extension.
pub fn split_stem_extension(name: &[char]) -> (r: (Vec<char>, Option<Vec<char>>))
    ensures
        r.0@ == stem_and_extension(name@).0,
        match r.1 {
            Some(e) => stem_and_extension(name@).1 == Some(e@),
            None => stem_and_extension(name@).1 is None,
        },
{
    proof { lemma_last_index_of(name@, '.'); }
    let dots = chars_of("..");
    let mut i: usize = name.len();
    while i > 0 && name[i - 1] != '.'
        invariant
            i <= name.len(),
            forall|j: int| i <= j < name.len() ==> name@[j] != '.',
        decreases i,
    {
        i -= 1;
    }
    let ghost li = last_index_of(name@, '.');
    assert(i == 0 ==> li == -1) by {
        if i == 0 && li >= 0 {
            assert(name@[li] == '.');
        }
    }
    assert(i > 0 ==> li == i - 1) by {
        if i > 0 {
            if li > i - 1 {
                assert(name@[li] == '.');
            }
            if li < i - 1 {
                assert(name@[i - 1] == '.');
            }
        }
    }
    if chars_eq(name, &dots) || i <= 1 {
        let mut copy: Vec<char> = Vec::new();
        extend_chars(&mut copy, name);
        return (copy, None);
    }
    let dot = i - 1;
    let mut stem: Vec<char> = Vec::new();
    let mut k: usize = 0;
    while k < dot
        invariant
            k <= dot,
            dot < name.len(),
            stem@ == name@.take(k as int),
        decreases dot - k,
    {
        stem.push(name[k]);
        assert(name@.take(k as int).push(name@[k as int]) =~= name@.take(k + 1));
        k += 1;
    }
    let mut ext: Vec<char> = Vec::new();
    let mut k: usize = dot + 1;
    while k < name.len()
        invariant
            dot + 1 <= k <= name.len(),
            ext@ == name@.subrange(dot + 1, k as int),
        decreases name.len() - k,
    {
        ext.push(name[k]);
        assert(name@.subrange(dot + 1, k as int).push(name@[k as int]) =~= name@.subrange(dot + 1, k + 1));
        k += 1;
    }
    assert(ext@ =~= name@.skip(dot + 1));
    (stem, Some(ext))
}

/// std `Path::join` on Unix: an absolute `p` replaces `base`; otherwise `p`
/// is appended after a separator, unless `base` is empty or already ends
/// with one.
pub open spec fn path_join(base: Seq<char>, p: Seq<char>) -> Seq<char> {
    if p.len() > 0 && p[0] == '/' {
        p
    } else if base.len() == 0 || base.last() == '/' {
        base + p
    } else {
        base + "/"@ + p
    }
}

/// Joins two paths as std `Path::join` does on Unix.
pub fn join_path(base: &str, p: &str) -> (r: String)
    ensures
        r@ == path_join(base@, p@),
{
    let pc = chars_of(p);
    if pc.len() > 0 && pc[0] == '/' {
        return string_of(&pc);
    }
    let bc = chars_of(base);
    let mut out = string_of(&bc);
    if !(bc.len() == 0 || bc[bc.len() - 1] == '/') {
        push_str(&mut out, "/");
    }
    push_str(&mut out, p);
    out
}

/// The last component of a normalised path (no trailing or repeated
/// separators), as std `Path::file_name` gives it: `None` for an empty last
/// component, `.` or `..`.
pub open spec fn file_name_spec(p: Seq<char>) -> Option<Seq<char>> {
    let n = p.skip(last_index_of(p, '/') + 1);
    if n.len() == 0 || n == "."@ || n == ".."@ {
        None
    } else {
        Some(n)
    }
}

/// The path without its last component (std `Path::pop` on a normalised
/// path): the root for a top-level absolute path, empty for a bare name.
pub open spec fn parent_spec(p: Seq<char>) -> Seq<char> {
    let i = last_index_of(p, '/');
    if i < 0 {
        Seq::empty()
    } else if i == 0 {
        "/"@
    } else {
        p.take(i)
    }
}

/// std `Path::with_file_name` for a normalised path that has a file name.
pub open spec fn with_file_name_spec(p: Seq<char>, name: Seq<char>) -> Seq<char> {
    path_join(parent_spec(p), name)
}

/// The index of the last separator, or -1.
fn last_separator(p: &[char]) -> (r: i64)
    requires
        p.len() < 0x7fff_ffff_ffff_ffff,
    ensures
        r == last_index_of(p@, '/'),
{
    proof { lemma_last_index_of(p@, '/'); }
    let mut i: usize = p.len();
    while i > 0 && p[i - 1] != '/'
        invariant
            i <= p.len(),
            forall|j: int| i <= j < p.len() ==> p@[j] != '/',
        decreases i,
    {
        i -= 1;
    }
    let ghost li = last_index_of(p@, '/');
    if i == 0 {
        proof {
            if li >= 0 {
                assert(p@[li] == '/');
            }
        }
        -1
    } else {
        proof {
            if li > i - 1 {
                assert(p@[li] == '/');
            }
            if li < i - 1 {
                assert(p@[i - 1] == '/');
            }
        }
        (i - 1) as i64
    }
}

/// The characters of `p` from index `from` on.
fn suffix_from(p: &[char], from: usize) -> (r: Vec<char>)
    requires
        from <= p.len(),
    ensures
        r@ == p@.skip(from as int),
{
    let mut out: Vec<char> = Vec::new();
    let mut k = from;
    while k < p.len()
        invariant
            from <= k <= p.len(),
            out@ == p@.subrange(from as int, k as int),
        decreases p.len() - k,
    {
        out.push(p[k]);
        assert(p@.subrange(from as int, k as int).push(p@[k as int]) =~= p@.subrange(from as int, k + 1));
        k += 1;
    }
    out
}

/// The file name of a normalised path.
pub fn file_name(p: &str) -> (r: Option<String>)
    requires
        p@.len() < 0x7fff_ffff_ffff_ffff,
    ensures
        match r {
            Some(n) => file_name_spec(p@) == Some(n@),
            None => file_name_spec(p@) is None,
        },
{
    let pc = chars_of(p);
    let i = last_separator(&pc);
    proof { lemma_last_index_of(p@, '/'); }
    let n = suffix_from(&pc, (i + 1) as usize);
    if n.len() == 0 || chars_eq(&n, &chars_of(".")) || chars_eq(&n, &chars_of("..")) {
        None
    } else {
        Some(string_of(&n))
    }
}

/// The path with its last component replaced by `name`.
pub fn with_file_name(p: &str, name: &str) -> (r: String)
    requires
        p@.len() < 0x7fff_ffff_ffff_ffff,
    ensures
        r@ == with_file_name_spec(p@, name@),
{
    let pc = chars_of(p);
    let i = last_separator(&pc);
    proof { lemma_last_index_of(p@, '/'); }
    let parent = if i < 0 {
        String::new()
    } else if i == 0 {
        String::from_str("/")
    } else {
        let mut v: Vec<char> = Vec::new();
        let mut k: usize = 0;
        while k < i as usize
            invariant
                k <= i,
                i < pc.len(),
                v@ == pc@.take(k as int),
            decreases i - k,
        {
            v.push(pc[k]);
            assert(pc@.take(k as int).push(pc@[k as int]) =~= pc@.take(k + 1));
            k += 1;
        }
        string_of(&v)
    };
    assert(parent@ == parent_spec(p@));
    join_path(parent.as_str(), name)
}

/// The number of components of a normalised relative path.
pub open spec fn component_count(rel: Seq<char>) -> nat {
    if rel.len() == 0 {
        0
    } else {
        split_on(rel, '/').len()
    }
}

/// How deep `path` lies below `root`: the number of components after the
/// root (zero when `path` is not below `root`).
pub open spec fn depth_spec(path: Seq<char>, root: Seq<char>) -> nat {
    if root.len() > 0 && root.last() == '/' && root.len() <= path.len() && path.take(root.len() as int)
        == root {
        component_count(path.skip(root.len() as int))
    } else if root.len() < path.len() && path.take(root.len() as int) == root && path[root.len() as int]
        == '/' {
        component_count(path.skip(root.len() + 1int))
    } else {
        0
    }
}

/// The depth of `path` below `root`.
pub fn depth_below(path: &str, root: &str) -> (r: usize)
    requires
        path@.len() < usize::MAX,
    ensures
        r == depth_spec(path@, root@),
{
    let pc = chars_of(path);
    let rc = chars_of(root);
    let rel_start: usize;
    if rc.len() > 0 && rc[rc.len() - 1] == '/' && crate::text::starts_with_chars(&pc, &rc) {
        rel_start = rc.len();
    } else if rc.len() < pc.len() && crate::text::starts_with_chars(&pc, &rc) && pc[rc.len()] == '/' {
        rel_start = rc.len() + 1;
    } else {
        return 0;
    }
    let rel = suffix_from(&pc, rel_start);
    if rel.len() == 0 {
        return 0;
    }
    assert(rel@.len() <= path@.len());
    let mut count: usize = 1;
    let mut k: usize = 0;
    assert(rel@.take(0) =~= Seq::<char>::empty());
    proof { lemma_split_on_nonempty(rel@.take(0), '/'); }
    while k < rel.len()
        invariant
            k <= rel.len(),
            count == split_on(rel@.take(k as int), '/').len(),
            count <= k + 1,
            rel@.len() < usize::MAX,
        decreases rel.len() - k,
    {
        assert(rel@.take(k + 1).drop_last() =~= rel@.take(k as int));
        assert(rel@.take(k + 1).last() == rel@[k as int]);
        proof { lemma_split_on_nonempty(rel@.take(k as int), '/'); }
        if rel[k] == '/' {
            count += 1;
        }
        k += 1;
    }
    assert(rel@.take(rel.len() as int) =~= rel@);
    count
}

} // verus!
