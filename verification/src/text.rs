//! Character-sequence utilities shared by the rest of the library.
//!
//! Strings are handled as sequences of `char`; the spec functions here state
//! the meaning of the std string operations the tool relies on (`contains`,
//! `starts_with`, `replace`, `lines`, `trim`, `split_whitespace`, parsing and
//! printing of decimal numbers) and the executable functions are proved
//! against them.
use vstd::prelude::*;

verus! {

// ----------------------------------------------------------------------------
// Conversions between `str`/`String` and character vectors
// ----------------------------------------------------------------------------

/// Appends one character to a `String` (std `String::push`).
#[verifier::external_body]
pub(crate) fn push_char(s: &mut String, c: char)
    ensures
        final(s)@ == old(s)@.push(c),
{
    s.push(c);
}

/// The characters of a string slice, in order.
pub fn chars_of(s: &str) -> (v: Vec<char>)
    ensures
        v@ == s@,
{
    let mut v: Vec<char> = Vec::new();
    for c in it: s.chars()
        invariant
            v@ == it.seq().take(it.index() as int),
            it.seq() == s@,
    {
        v.push(c);
    }
    v
}

/// Builds a `String` holding exactly the given characters.
pub fn string_of(v: &[char]) -> (s: String)
    ensures
        s@ == v@,
{
    let mut s = String::new();
    let mut i: usize = 0;
    while i < v.len()
        invariant
            i <= v.len(),
            s@ == v@.take(i as int),
        decreases v.len() - i,
    {
        push_char(&mut s, v[i]);
        assert(v@.take(i as int).push(v@[i as int]) =~= v@.take(i + 1));
        i += 1;
    }
    assert(v@.take(v.len() as int) =~= v@);
    s
}

/// Appends `src` to the end of `dst`.
pub fn extend_chars(dst: &mut Vec<char>, src: &[char])
    ensures
        final(dst)@ == old(dst)@ + src@,
{
    let mut i: usize = 0;
    while i < src.len()
        invariant
            i <= src.len(),
            dst@ == old(dst)@ + src@.take(i as int),
        decreases src.len() - i,
    {
        dst.push(src[i]);
        assert(src@.take(i as int).push(src@[i as int]) =~= src@.take(i + 1));
        i += 1;
    }
    assert(src@.take(src.len() as int) =~= src@);
}

/// Appends the characters of a string slice to a `String`.
pub fn push_str(dst: &mut String, src: &str)
    ensures
        final(dst)@ == old(dst)@ + src@,
{
    let v = chars_of(src);
    let mut i: usize = 0;
    while i < v.len()
        invariant
            i <= v.len(),
            v@ == src@,
            dst@ == old(dst)@ + src@.take(i as int),
        decreases v.len() - i,
    {
        push_char(dst, v[i]);
        assert(src@.take(i as int).push(src@[i as int]) =~= src@.take(i + 1));
        i += 1;
    }
    assert(src@.take(src@.len() as int) =~= src@);
}

/// Whether two character slices are equal.
pub fn chars_eq(a: &[char], b: &[char]) -> (r: bool)
    ensures
        r == (a@ == b@),
{
    if a.len() != b.len() {
        return false;
    }
    let mut i: usize = 0;
    while i < a.len()
        invariant
            i <= a.len(),
            a.len() == b.len(),
            forall|j: int| 0 <= j < i ==> a@[j] == b@[j],
        decreases a.len() - i,
    {
        if a[i] != b[i] {
            return false;
        }
        i += 1;
    }
    assert(a@ =~= b@);
    true
}

/// Whether two strings hold the same characters.
pub fn str_eq(a: &str, b: &str) -> (r: bool)
    ensures
        r == (a@ == b@),
{
    let va = chars_of(a);
    let vb = chars_of(b);
    chars_eq(&va, &vb)
}

// ----------------------------------------------------------------------------
// Substring search
// ----------------------------------------------------------------------------

/// `pat` occurs in `s` starting at index `i`.
pub open spec fn matches_at(s: Seq<char>, pat: Seq<char>, i: int) -> bool {
    &&& 0 <= i
    &&& i + pat.len() <= s.len()
    &&& s.subrange(i, i + pat.len()) == pat
}

/// `pat` occurs somewhere in `s` (std `str::contains` with a string pattern).
pub open spec fn contains_seq(s: Seq<char>, pat: Seq<char>) -> bool {
    exists|i: int| matches_at(s, pat, i)
}

/// std `str::starts_with`.
pub open spec fn starts_with_seq(s: Seq<char>, p: Seq<char>) -> bool {
    matches_at(s, p, 0)
}

/// std `str::ends_with`.
pub open spec fn ends_with_seq(s: Seq<char>, p: Seq<char>) -> bool {
    p.len() <= s.len() && matches_at(s, p, s.len() - p.len())
}

/// Whether `pat` occurs in `s` at index `i`.
pub fn matches_at_exec(s: &[char], pat: &[char], i: usize) -> (r: bool)
    ensures
        r == matches_at(s@, pat@, i as int),
{
    if i > s.len() || pat.len() > s.len() - i {
        return false;
    }
    let mut k: usize = 0;
    while k < pat.len()
        invariant
            k <= pat.len(),
            i + pat.len() <= s.len(),
            forall|j: int| 0 <= j < k ==> s@[i + j] == pat@[j],
        decreases pat.len() - k,
    {
        if s[i + k] != pat[k] {
            assert(s@.subrange(i as int, i + pat.len())[k as int] != pat@[k as int]);
            return false;
        }
        k += 1;
    }
    assert(s@.subrange(i as int, i + pat.len()) =~= pat@);
    true
}

/// The first index at or after `start` where `pat` occurs in `s`.
pub fn find_from(s: &[char], pat: &[char], start: usize) -> (r: Option<usize>)
    ensures
        match r {
            Some(i) => start <= i && matches_at(s@, pat@, i as int) && forall|j: int|
                start <= j < i ==> !matches_at(s@, pat@, j),
            None => forall|j: int| start <= j ==> !matches_at(s@, pat@, j),
        },
{
    if start > s.len() || pat.len() > s.len() {
        return None;
    }
    let last = s.len() - pat.len();
    let mut i = start;
    while i <= last
        invariant
            start <= i,
            last == s.len() - pat.len(),
            forall|j: int| start <= j < i ==> !matches_at(s@, pat@, j),
        decreases last + 1 - i,
    {
        if matches_at_exec(s, pat, i) {
            return Some(i);
        }
        if i == last {
            return None;
        }
        i += 1;
    }
    None
}

/// Whether `pat` occurs in `s`.
pub fn contains_chars(s: &[char], pat: &[char]) -> (r: bool)
    ensures
        r == contains_seq(s@, pat@),
{
    match find_from(s, pat, 0) {
        Some(_) => true,
        None => false,
    }
}

/// Whether `pat` occurs in the string `s`.
pub fn str_contains(s: &str, pat: &str) -> (r: bool)
    ensures
        r == contains_seq(s@, pat@),
{
    let vs = chars_of(s);
    let vp = chars_of(pat);
    contains_chars(&vs, &vp)
}

/// Whether `s` starts with `p`.
pub fn starts_with_chars(s: &[char], p: &[char]) -> (r: bool)
    ensures
        r == starts_with_seq(s@, p@),
{
    matches_at_exec(s, p, 0)
}

/// Whether `s` ends with `p`.
pub fn ends_with_chars(s: &[char], p: &[char]) -> (r: bool)
    ensures
        r == ends_with_seq(s@, p@),
{
    if p.len() > s.len() {
        false
    } else {
        matches_at_exec(s, p, s.len() - p.len())
    }
}

// ----------------------------------------------------------------------------
// Replacement (std `str::replace`)
// ----------------------------------------------------------------------------

/// std `str::replace(s, from, to)`: every non-overlapping occurrence of `from`,
/// scanning left to right, is replaced by `to`; an empty `from` matches before
/// every character and at the end.
pub open spec fn replace_spec(s: Seq<char>, from: Seq<char>, to: Seq<char>) -> Seq<char>
    decreases s.len(),
{
    if from.len() == 0 {
        if s.len() == 0 {
            to
        } else {
            to + seq![s[0]] + replace_spec(s.drop_first(), from, to)
        }
    } else if s.len() < from.len() {
        s
    } else if s.take(from.len() as int) == from {
        to + replace_spec(s.skip(from.len() as int), from, to)
    } else {
        seq![s[0]] + replace_spec(s.drop_first(), from, to)
    }
}

/// Replaces every occurrence of `from` in `s` by `to`, as std `str::replace` does.
pub fn replace_all(s: &[char], from: &[char], to: &[char]) -> (r: Vec<char>)
    ensures
        r@ == replace_spec(s@, from@, to@),
{
    let mut out: Vec<char> = Vec::new();
    let mut i: usize = 0;
    assert(s@.skip(0) =~= s@);
    if from.len() == 0 {
        while i < s.len()
            invariant
                i <= s.len(),
                from@.len() == 0,
                replace_spec(s@, from@, to@) == out@ + replace_spec(s@.skip(i as int), from@, to@),
            decreases s.len() - i,
        {
            let ghost rest = s@.skip(i as int);
            assert(rest.drop_first() =~= s@.skip(i + 1));
            assert(rest[0] == s@[i as int]);
            extend_chars(&mut out, to);
            out.push(s[i]);
            i += 1;
        }
        extend_chars(&mut out, to);
        assert(s@.skip(s.len() as int) =~= Seq::<char>::empty());
        return out;
    }
    while i < s.len()
        invariant
            i <= s.len(),
            from@.len() > 0,
            replace_spec(s@, from@, to@) == out@ + replace_spec(s@.skip(i as int), from@, to@),
        decreases s.len() - i,
    {
        let ghost rest = s@.skip(i as int);
        if matches_at_exec(s, from, i) {
            assert(rest.take(from@.len() as int) =~= s@.subrange(i as int, i + from@.len()));
            assert(rest.skip(from@.len() as int) =~= s@.skip(i + from@.len()));
            extend_chars(&mut out, to);
            i += from.len();
        } else {
            proof {
                assert(rest.drop_first() =~= s@.skip(i + 1));
                if rest.len() >= from@.len() {
                    assert(rest.take(from@.len() as int) =~= s@.subrange(i as int, i + from@.len()));
                } else {
                    assert(rest =~= seq![rest[0]] + rest.drop_first());
                    lemma_replace_short(rest.drop_first(), from@, to@);
                }
                assert(rest[0] == s@[i as int]);
            }
            out.push(s[i]);
            i += 1;
        }
    }
    assert(s@.skip(s.len() as int) =~= Seq::<char>::empty());
    out
}

/// Replacement that ignores letter case: scanning left to right, every
/// stretch of `s` as long as `from` whose lowercase form is that of `from`
/// is replaced by `to`, and the next search starts after it; every other
/// character is kept as it is. With an empty `from` it is [`replace_spec`].
pub open spec fn replace_ignore_case_spec(s: Seq<char>, from: Seq<char>, to: Seq<char>) -> Seq<char>
    decreases s.len(),
{
    if from.len() == 0 {
        replace_spec(s, from, to)
    } else if s.len() < from.len() {
        s
    } else if lowercase_spec(s.take(from.len() as int)) == lowercase_spec(from) {
        to + replace_ignore_case_spec(s.skip(from.len() as int), from, to)
    } else {
        seq![s[0]] + replace_ignore_case_spec(s.drop_first(), from, to)
    }
}

/// The characters of `s` from index `a` up to `b`.
pub fn subrange_chars(s: &[char], a: usize, b: usize) -> (r: Vec<char>)
    requires
        a <= b <= s.len(),
    ensures
        r@ == s@.subrange(a as int, b as int),
{
    let mut out: Vec<char> = Vec::new();
    let mut k = a;
    while k < b
        invariant
            a <= k <= b <= s.len(),
            out@ == s@.subrange(a as int, k as int),
        decreases b - k,
    {
        out.push(s[k]);
        k += 1;
    }
    out
}

/// Replaces every occurrence of `from` in `s` by `to`, ignoring letter case
/// in the comparison and keeping the case of everything else.
pub fn replace_all_ignore_case(s: &[char], from: &[char], to: &[char]) -> (r: Vec<char>)
    ensures
        r@ == replace_ignore_case_spec(s@, from@, to@),
{
    if from.len() == 0 {
        return replace_all(s, from, to);
    }
    let lower_from = lowercase_chars(from);
    let m = from.len();
    let mut out: Vec<char> = Vec::new();
    let mut i: usize = 0;
    assert(s@.skip(0) =~= s@);
    while i < s.len() && m <= s.len() - i
        invariant
            i <= s.len(),
            m == from@.len(),
            m > 0,
            lower_from@ == lowercase_spec(from@),
            replace_ignore_case_spec(s@, from@, to@) == out@ + replace_ignore_case_spec(s@.skip(i as int), from@, to@),
        decreases s.len() - i,
    {
        let ghost rest = s@.skip(i as int);
        let window = subrange_chars(s, i, i + m);
        assert(rest.take(m as int) =~= window@);
        let lower_window = lowercase_chars(&window);
        if chars_eq(&lower_window, &lower_from) {
            assert(rest.skip(m as int) =~= s@.skip(i + m));
            extend_chars(&mut out, to);
            i += m;
        } else {
            assert(rest.drop_first() =~= s@.skip(i + 1));
            assert(rest[0] == s@[i as int]);
            let ghost before = out@;
            out.push(s[i]);
            assert(out@ == before + seq![s@[i as int]]);
            assert(before + (seq![s@[i as int]] + replace_ignore_case_spec(s@.skip(i + 1), from@, to@)) =~= out@ + replace_ignore_case_spec(s@.skip(i + 1), from@, to@));
            i += 1;
        }
    }
    let ghost rest = s@.skip(i as int);
    assert(rest.len() < from@.len());
    let tail = subrange_chars(s, i, s.len());
    assert(tail@ =~= rest);
    extend_chars(&mut out, &tail);
    out
}

proof fn lemma_replace_short(s: Seq<char>, from: Seq<char>, to: Seq<char>)
    requires
        s.len() < from.len(),
    ensures
        replace_spec(s, from, to) == s,
{
}

// ----------------------------------------------------------------------------
// Lines and joining
// ----------------------------------------------------------------------------

/// The views of a vector of character vectors.
pub open spec fn views(v: Seq<Vec<char>>) -> Seq<Seq<char>> {
    Seq::new(v.len(), |i: int| v[i]@)
}

/// std `str::split(sep)` with a single-character separator.
pub open spec fn split_on(s: Seq<char>, sep: char) -> Seq<Seq<char>>
    decreases s.len(),
{
    if s.len() == 0 {
        seq![Seq::<char>::empty()]
    } else {
        let p = split_on(s.drop_last(), sep);
        if s.last() == sep {
            p.push(Seq::<char>::empty())
        } else {
            p.update(p.len() - 1, p.last().push(s.last()))
        }
    }
}

/// A split always has at least one piece.
pub proof fn lemma_split_on_nonempty(s: Seq<char>, sep: char)
    ensures
        split_on(s, sep).len() >= 1,
    decreases s.len(),
{
    if s.len() > 0 {
        lemma_split_on_nonempty(s.drop_last(), sep);
    }
}

/// Drops one trailing carriage return.
pub open spec fn strip_cr(x: Seq<char>) -> Seq<char> {
    if x.len() > 0 && x.last() == '\r' {
        x.drop_last()
    } else {
        x
    }
}

/// std `str::lines`: the pieces between newlines, without a final empty piece,
/// each piece that was followed by a newline losing one trailing `'\r'`.
pub open spec fn lines_spec(s: Seq<char>) -> Seq<Seq<char>> {
    if s.len() == 0 {
        Seq::empty()
    } else {
        let p = split_on(s, '\n');
        let n = p.len();
        let m: int = if p[n - 1].len() == 0 {
            n - 1
        } else {
            n as int
        };
        Seq::new(m as nat, |i: int| if i < n - 1 { strip_cr(p[i]) } else { p[i] })
    }
}

/// Splits `s` at every occurrence of `sep`.
pub fn split_chars(s: &[char], sep: char) -> (r: Vec<Vec<char>>)
    ensures
        views(r@) == split_on(s@, sep),
{
    let mut done: Vec<Vec<char>> = Vec::new();
    let mut cur: Vec<char> = Vec::new();
    let mut i: usize = 0;
    assert(s@.take(0) =~= Seq::<char>::empty());
    assert(views(done@).push(cur@) =~= split_on(s@.take(0), sep));
    while i < s.len()
        invariant
            i <= s.len(),
            views(done@).push(cur@) == split_on(s@.take(i as int), sep),
        decreases s.len() - i,
    {
        let ghost before = s@.take(i as int);
        assert(s@.take(i + 1).drop_last() =~= before);
        assert(s@.take(i + 1).last() == s@[i as int]);
        proof { lemma_split_on_nonempty(before, sep); }
        if s[i] == sep {
            let finished = cur;
            done.push(finished);
            cur = Vec::new();
            assert(views(done@).push(cur@) =~= split_on(before, sep).push(Seq::<char>::empty()));
        } else {
            cur.push(s[i]);
            let ghost p = split_on(before, sep);
            assert(views(done@).push(cur@) =~= p.update(p.len() - 1, p.last().push(s@[i as int])));
        }
        i += 1;
    }
    assert(s@.take(s.len() as int) =~= s@);
    done.push(cur);
    assert(views(done@) =~= split_on(s@, sep));
    done
}

/// Removes one trailing carriage return.
fn strip_cr_exec(x: Vec<char>) -> (r: Vec<char>)
    ensures
        r@ == strip_cr(x@),
{
    let mut x = x;
    if x.len() > 0 && x[x.len() - 1] == '\r' {
        x.pop();
    }
    x
}

/// The lines of `s`, as std `str::lines` yields them.
pub fn lines_of(s: &[char]) -> (r: Vec<Vec<char>>)
    ensures
        views(r@) == lines_spec(s@),
{
    let mut out: Vec<Vec<char>> = Vec::new();
    if s.len() == 0 {
        assert(views(out@) =~= lines_spec(s@));
        return out;
    }
    let pieces = split_chars(s, '\n');
    proof { lemma_split_on_nonempty(s@, '\n'); }
    let n = pieces.len();
    assert(views(pieces@)[n - 1] == pieces@[n - 1]@);
    let m = if pieces[n - 1].len() == 0 {
        n - 1
    } else {
        n
    };
    let ghost p = split_on(s@, '\n');
    let mut i: usize = 0;
    while i < m
        invariant
            i <= m,
            m <= n,
            n == pieces@.len(),
            views(pieces@) == p,
            p == split_on(s@, '\n'),
            out@.len() == i,
            forall|j: int| 0 <= j < i ==> out@[j]@ == (if j < n - 1 { strip_cr(p[j]) } else { p[j] }),
        decreases m - i,
    {
        let piece = pieces[i].clone();
        assert(piece@ == p[i as int]);
        if i < n - 1 {
            let line = strip_cr_exec(piece);
            out.push(line);
        } else {
            out.push(piece);
        }
        i += 1;
    }
    assert(views(out@) =~= lines_spec(s@));
    out
}

/// Joins pieces with a separator between consecutive pieces (std `join`).
pub open spec fn join_spec(parts: Seq<Seq<char>>, sep: Seq<char>) -> Seq<char>
    decreases parts.len(),
{
    if parts.len() == 0 {
        Seq::empty()
    } else if parts.len() == 1 {
        parts[0]
    } else {
        join_spec(parts.drop_last(), sep) + sep + parts.last()
    }
}

/// The pieces of a split hold no separator, and no character the whole
/// sequence lacks.
pub proof fn lemma_split_on_pieces(s: Seq<char>, sep: char, c: char)
    requires
        !s.contains(c) || c == sep,
    ensures
        forall|i: int| 0 <= i < split_on(s, sep).len() ==> !(#[trigger] split_on(s, sep)[i]).contains(c),
    decreases s.len(),
{
    lemma_split_on_nonempty(s, sep);
    if s.len() > 0 {
        let s0 = s.drop_last();
        assert(!s0.contains(c) || c == sep) by {
            if s0.contains(c) {
                let k = choose|k: int| 0 <= k < s0.len() && s0[k] == c;
                assert(s[k] == c);
            }
        }
        lemma_split_on_pieces(s0, sep, c);
        lemma_split_on_nonempty(s0, sep);
        let p = split_on(s0, sep);
        if s.last() != sep {
            assert(s.last() != c) by {
                if s.last() == c {
                    assert(s[s.len() - 1] == c);
                }
            }
            let q = split_on(s, sep);
            assert forall|i: int| 0 <= i < q.len() implies !(#[trigger] q[i]).contains(c) by {
                if i == p.len() - 1 {
                    let x = p.last().push(s.last());
                    assert(q[i] == x);
                    if x.contains(c) {
                        let k = choose|k: int| 0 <= k < x.len() && x[k] == c;
                        if k < p.last().len() {
                            assert(p[p.len() - 1][k] == c);
                        }
                    }
                } else {
                    assert(q[i] == p[i]);
                }
            }
        } else {
            let q = split_on(s, sep);
            assert forall|i: int| 0 <= i < q.len() implies !(#[trigger] q[i]).contains(c) by {
                if i < p.len() {
                    assert(q[i] == p[i]);
                } else {
                    assert(q[i] =~= Seq::<char>::empty());
                }
            }
        }
    }
}

/// A sequence without the separator splits into itself alone.
pub proof fn lemma_split_on_single(x: Seq<char>, sep: char)
    requires
        !x.contains(sep),
    ensures
        split_on(x, sep) == seq![x],
    decreases x.len(),
{
    if x.len() > 0 {
        let x0 = x.drop_last();
        assert(!x0.contains(sep)) by {
            if x0.contains(sep) {
                let k = choose|k: int| 0 <= k < x0.len() && x0[k] == sep;
                assert(x[k] == sep);
            }
        }
        lemma_split_on_single(x0, sep);
        assert(x.last() != sep) by {
            assert(x[x.len() - 1] == x.last());
        }
        assert(x0.push(x.last()) =~= x);
        assert(split_on(x, sep) =~= seq![x]);
    } else {
        assert(x =~= Seq::<char>::empty());
    }
}

/// Splitting at a separator splits each side independently.
pub proof fn lemma_split_on_concat(a: Seq<char>, b: Seq<char>, sep: char)
    ensures
        split_on(a + seq![sep] + b, sep) == split_on(a, sep) + split_on(b, sep),
    decreases b.len(),
{
    let j = a + seq![sep] + b;
    if b.len() == 0 {
        assert(j.drop_last() =~= a);
        assert(split_on(b, sep) =~= seq![Seq::<char>::empty()]);
        assert(split_on(j, sep) =~= split_on(a, sep) + split_on(b, sep));
    } else {
        let b0 = b.drop_last();
        lemma_split_on_concat(a, b0, sep);
        lemma_split_on_nonempty(b0, sep);
        lemma_split_on_nonempty(a, sep);
        assert(j.drop_last() =~= a + seq![sep] + b0);
        assert(j.last() == b.last());
        let pa = split_on(a, sep);
        let pb = split_on(b0, sep);
        if b.last() == sep {
            assert(split_on(j, sep) =~= pa + pb.push(Seq::<char>::empty()));
        } else {
            let p = pa + pb;
            assert(p.last() == pb.last());
            assert(split_on(j, sep) =~= pa + pb.update(pb.len() - 1, pb.last().push(b.last())));
        }
    }
}

/// Joining the pieces of a split with the separator gives back the sequence.
pub proof fn lemma_join_split(s: Seq<char>, sep: char)
    ensures
        join_spec(split_on(s, sep), seq![sep]) == s,
    decreases s.len(),
{
    if s.len() == 0 {
        assert(split_on(s, sep) =~= seq![Seq::<char>::empty()]);
        assert(s =~= Seq::<char>::empty());
    } else {
        let s0 = s.drop_last();
        lemma_join_split(s0, sep);
        lemma_split_on_nonempty(s0, sep);
        let p = split_on(s0, sep);
        let q = split_on(s, sep);
        if s.last() == sep {
            assert(q == p.push(Seq::<char>::empty()));
            assert(q.drop_last() =~= p);
            assert(join_spec(q, seq![sep]) == join_spec(p, seq![sep]) + seq![sep] + Seq::<char>::empty());
            assert(s =~= s0 + seq![sep] + Seq::<char>::empty());
        } else {
            let x = p.last().push(s.last());
            assert(q == p.update(p.len() - 1, x));
            if p.len() == 1 {
                assert(join_spec(p, seq![sep]) == p[0]);
                assert(s =~= s0.push(s.last()));
            } else {
                assert(q.drop_last() =~= p.drop_last());
                assert(join_spec(q, seq![sep]) == join_spec(p.drop_last(), seq![sep]) + seq![sep] + x);
                assert(join_spec(p, seq![sep]) == join_spec(p.drop_last(), seq![sep]) + seq![sep] + p.last());
                assert(s =~= s0.push(s.last()));
            }
        }
    }
}

/// A pattern without `sep` that occurs in neither side does not occur in
/// `a + [sep] + b`.
pub proof fn lemma_no_match_across(a: Seq<char>, b: Seq<char>, sep: char, m: Seq<char>)
    requires
        !contains_seq(a, m),
        !contains_seq(b, m),
        !m.contains(sep),
    ensures
        !contains_seq(a + seq![sep] + b, m),
{
    let j = a + seq![sep] + b;
    if contains_seq(j, m) {
        let i = choose|i: int| matches_at(j, m, i);
        if i + m.len() <= a.len() {
            assert(j.subrange(i, i + m.len()) =~= a.subrange(i, i + m.len()));
            assert(matches_at(a, m, i));
        } else if i >= a.len() + 1 {
            assert(j.subrange(i, i + m.len()) =~= b.subrange(i - a.len() - 1, i - a.len() - 1 + m.len()));
            assert(matches_at(b, m, i - a.len() - 1));
        } else {
            let k = a.len() - i;
            assert(j.subrange(i, i + m.len())[k] == j[a.len() as int]);
            assert(m[k] == sep);
        }
    }
}

/// Joining pieces that lack a newline-free pattern never creates it.
pub proof fn lemma_join_lacks(parts: Seq<Seq<char>>, sep: char, m: Seq<char>)
    requires
        forall|i: int| 0 <= i < parts.len() ==> !contains_seq(#[trigger] parts[i], m),
        !m.contains(sep),
        m.len() > 0,
    ensures
        !contains_seq(join_spec(parts, seq![sep]), m),
    decreases parts.len(),
{
    if parts.len() == 0 {
        let e = join_spec(parts, seq![sep]);
        assert(e.len() == 0);
        if contains_seq(e, m) {
            let i = choose|i: int| matches_at(e, m, i);
        }
    } else if parts.len() == 1 {
        assert(!contains_seq(parts[0], m));
    } else {
        let init = parts.drop_last();
        assert forall|i: int| 0 <= i < init.len() implies !contains_seq(#[trigger] init[i], m) by {
            assert(init[i] == parts[i]);
        }
        lemma_join_lacks(init, sep, m);
        assert(!contains_seq(parts[parts.len() - 1], m));
        lemma_no_match_across(join_spec(init, seq![sep]), parts.last(), sep, m);
    }
}

/// An occurrence of an occurrence is an occurrence.
pub proof fn lemma_contains_trans(a: Seq<char>, b: Seq<char>, m: Seq<char>)
    requires
        contains_seq(a, b),
        contains_seq(b, m),
    ensures
        contains_seq(a, m),
{
    let i = choose|i: int| matches_at(a, b, i);
    let j = choose|j: int| matches_at(b, m, j);
    assert(a.subrange(i + j, i + j + m.len()) =~= b.subrange(j, j + m.len()));
    assert(matches_at(a, m, i + j));
}

/// A sequence occurs in itself extended at the end.
pub proof fn lemma_prefix_contained(s: Seq<char>, k: int)
    requires
        0 <= k <= s.len(),
    ensures
        contains_seq(s, s.take(k)),
{
    assert(s.subrange(0, k) =~= s.take(k));
    assert(matches_at(s, s.take(k), 0));
}

/// A character of an occurrence is a character of the whole.
pub proof fn lemma_contained_char(s: Seq<char>, x: Seq<char>, c: char)
    requires
        contains_seq(s, x),
        x.contains(c),
    ensures
        s.contains(c),
{
    let i = choose|i: int| matches_at(s, x, i);
    let k = choose|k: int| 0 <= k < x.len() && x[k] == c;
    assert(s.subrange(i, i + x.len())[k] == s[i + k]);
}

/// Concatenation adds no character that neither side has.
pub proof fn lemma_concat_lacks(a: Seq<char>, b: Seq<char>, c: char)
    requires
        !a.contains(c),
        !b.contains(c),
    ensures
        !(a + b).contains(c),
{
    if (a + b).contains(c) {
        let k = choose|k: int| 0 <= k < (a + b).len() && (a + b)[k] == c;
        if k < a.len() {
            assert(a[k] == c);
        } else {
            assert(b[k - a.len()] == c);
        }
    }
}

/// Each piece of a split occurs in the sequence, and the last piece ends it.
pub proof fn lemma_split_on_contained(s: Seq<char>, sep: char)
    ensures
        forall|i: int| 0 <= i < split_on(s, sep).len() ==> contains_seq(s, #[trigger] split_on(s, sep)[i]),
        split_on(s, sep).len() >= 1,
        matches_at(s, split_on(s, sep).last(), s.len() - split_on(s, sep).last().len()),
    decreases s.len(),
{
    lemma_split_on_nonempty(s, sep);
    let p = split_on(s, sep);
    if s.len() == 0 {
        assert(p =~= seq![Seq::<char>::empty()]);
        assert(s.subrange(0, 0) =~= Seq::<char>::empty());
        assert(matches_at(s, p[0], 0));
    } else {
        let s0 = s.drop_last();
        lemma_split_on_contained(s0, sep);
        let p0 = split_on(s0, sep);
        lemma_prefix_contained(s, s0.len() as int);
        assert(s.take(s0.len() as int) =~= s0);
        assert forall|i: int| 0 <= i < p0.len() - 1 implies contains_seq(s, #[trigger] p[i]) by {
            assert(p[i] == p0[i]);
            lemma_contains_trans(s, s0, p0[i]);
        }
        if s.last() == sep {
            assert(p == p0.push(Seq::<char>::empty()));
            assert(contains_seq(s, p[p0.len() - 1])) by {
                lemma_contains_trans(s, s0, p0[p0.len() - 1]);
            }
            assert(s.subrange(s.len() as int, s.len() as int) =~= Seq::<char>::empty());
            assert(matches_at(s, p.last(), s.len() - p.last().len()));
        } else {
            let x = p0.last().push(s.last());
            assert(p == p0.update(p0.len() - 1, x));
            let st = s0.len() - p0.last().len();
            assert(s.subrange(st, s.len() as int) =~= s0.subrange(st, s0.len() as int).push(s.last()));
            assert(matches_at(s, x, st));
            assert(p.last() == x);
        }
    }
}

/// The lines of a sequence occur in it.
pub proof fn lemma_lines_contained(s: Seq<char>)
    ensures
        forall|i: int| 0 <= i < lines_spec(s).len() ==> contains_seq(s, #[trigger] lines_spec(s)[i]),
{
    if s.len() > 0 {
        lemma_split_on_contained(s, '\n');
        let p = split_on(s, '\n');
        assert forall|i: int| 0 <= i < lines_spec(s).len() implies contains_seq(s, #[trigger] lines_spec(s)[i]) by {
            assert(contains_seq(s, p[i]));
            if i < p.len() - 1 && p[i].len() > 0 && p[i].last() == '\r' {
                lemma_prefix_contained(p[i], p[i].len() - 1);
                assert(p[i].take(p[i].len() - 1) =~= p[i].drop_last());
                lemma_contains_trans(s, p[i], p[i].drop_last());
            }
        }
    }
}

/// Joining pieces that lack a character (other than the separator) gives a
/// sequence that lacks it.
pub proof fn lemma_join_lacks_char(parts: Seq<Seq<char>>, sep: char, c: char)
    requires
        forall|i: int| 0 <= i < parts.len() ==> !(#[trigger] parts[i]).contains(c),
        sep != c,
    ensures
        !join_spec(parts, seq![sep]).contains(c),
    decreases parts.len(),
{
    if parts.len() == 1 {
        assert(!parts[0].contains(c));
    } else if parts.len() > 1 {
        let init = parts.drop_last();
        assert forall|i: int| 0 <= i < init.len() implies !(#[trigger] init[i]).contains(c) by {
            assert(init[i] == parts[i]);
        }
        lemma_join_lacks_char(init, sep, c);
        assert(!seq![sep].contains(c)) by {
            if seq![sep].contains(c) {
                let k = choose|k: int| 0 <= k < 1 && seq![sep][k] == c;
            }
        }
        lemma_concat_lacks(join_spec(init, seq![sep]), seq![sep], c);
        assert(!parts[parts.len() - 1].contains(c));
        lemma_concat_lacks(join_spec(init, seq![sep]) + seq![sep], parts.last(), c);
    }
}

/// What trimming the end leaves is a prefix, ending (if not empty) in a
/// character that is not whitespace.
pub proof fn lemma_trim_end_prefix(s: Seq<char>)
    ensures
        trim_end_spec(s).len() <= s.len(),
        trim_end_spec(s) == s.take(trim_end_spec(s).len() as int),
        trim_end_spec(s).len() > 0 ==> !whitespace_spec(trim_end_spec(s).last()),
    decreases s.len(),
{
    if s.len() > 0 && whitespace_spec(s.last()) {
        lemma_trim_end_prefix(s.drop_last());
        let t = trim_end_spec(s.drop_last());
        assert(s.drop_last().take(t.len() as int) =~= s.take(t.len() as int));
    } else {
        assert(s.take(s.len() as int) =~= s);
    }
}

/// Trimming the end leaves nothing exactly when every character is
/// whitespace.
pub proof fn lemma_trim_end_empty(s: Seq<char>)
    ensures
        trim_end_spec(s).len() == 0 <==> forall|i: int| 0 <= i < s.len() ==> whitespace_spec(#[trigger] s[i]),
    decreases s.len(),
{
    if s.len() > 0 {
        let s0 = s.drop_last();
        lemma_trim_end_empty(s0);
        if whitespace_spec(s.last()) {
            if forall|i: int| 0 <= i < s0.len() ==> whitespace_spec(#[trigger] s0[i]) {
                assert forall|i: int| 0 <= i < s.len() implies whitespace_spec(#[trigger] s[i]) by {
                    if i < s0.len() {
                        assert(s[i] == s0[i]);
                    }
                }
            } else {
                let j = choose|j: int| 0 <= j < s0.len() && !whitespace_spec(#[trigger] s0[j]);
                assert(s[j] == s0[j]);
            }
        } else {
            assert(!whitespace_spec(s[s.len() - 1]));
        }
    }
}

/// Trimming the start leaves a suffix.
pub proof fn lemma_trim_start_suffix(s: Seq<char>)
    ensures
        trim_start_spec(s).len() <= s.len(),
        trim_start_spec(s) == s.skip(s.len() - trim_start_spec(s).len()),
    decreases s.len(),
{
    if s.len() > 0 && whitespace_spec(s[0]) {
        lemma_trim_start_suffix(s.drop_first());
        let t = trim_start_spec(s.drop_first());
        assert(s.drop_first().skip(s.len() - 1 - t.len()) =~= s.skip(s.len() - t.len()));
    } else {
        assert(s.skip(0) =~= s);
    }
}

/// What is left after trimming both ends is empty whenever trimming the end
/// alone leaves nothing.
pub proof fn lemma_trim_nonempty(s: Seq<char>)
    ensures
        trim_spec(s).len() > 0 ==> trim_end_spec(s).len() > 0,
{
    lemma_trim_end_empty(s);
    if trim_end_spec(s).len() == 0 {
        let t = trim_start_spec(s);
        lemma_trim_start_suffix(s);
        let k = s.len() - t.len();
        assert forall|i: int| 0 <= i < t.len() implies whitespace_spec(#[trigger] t[i]) by {
            assert(t[i] == s[k + i]);
        }
        lemma_trim_end_empty(t);
    }
}

/// An occurrence survives surrounding the sequence with more text.
pub proof fn lemma_contains_extend(pre: Seq<char>, a: Seq<char>, post: Seq<char>, m: Seq<char>)
    requires
        contains_seq(a, m),
    ensures
        contains_seq(pre + a + post, m),
{
    let i = choose|i: int| matches_at(a, m, i);
    let j = pre + a + post;
    assert(j.subrange(pre.len() + i, pre.len() + i + m.len()) =~= a.subrange(i, i + m.len()));
    assert(matches_at(j, m, pre.len() + i));
}

/// Joins the pieces with `sep` between consecutive ones.
pub fn join_chars(parts: &Vec<Vec<char>>, sep: &[char]) -> (r: Vec<char>)
    ensures
        r@ == join_spec(views(parts@), sep@),
{
    let mut out: Vec<char> = Vec::new();
    let mut i: usize = 0;
    while i < parts.len()
        invariant
            i <= parts.len(),
            out@ == join_spec(views(parts@).take(i as int), sep@),
        decreases parts.len() - i,
    {
        let ghost prefix = views(parts@).take(i + 1);
        assert(prefix.drop_last() =~= views(parts@).take(i as int));
        assert(prefix.last() == parts@[i as int]@);
        if i > 0 {
            extend_chars(&mut out, sep);
        } else {
            assert(prefix.len() == 1);
        }
        extend_chars(&mut out, &parts[i]);
        i += 1;
    }
    assert(views(parts@).take(parts.len() as int) =~= views(parts@));
    out
}

// ----------------------------------------------------------------------------
// Whitespace
// ----------------------------------------------------------------------------

/// Whether a character has the Unicode `White_Space` property.
pub uninterp spec fn char_is_whitespace(c: char) -> bool;

/// std `char::is_whitespace`: whether the character has the Unicode
/// `White_Space` property, as its documentation says. Beyond naming the
/// result, the contract states the ASCII part of that property: among ASCII
/// characters exactly the space and U+0009..=U+000D have it.
#[verifier::external_body]
pub(crate) fn is_whitespace(c: char) -> (b: bool)
    ensures
        b == char_is_whitespace(c),
        (c as u32) < 128 ==> (b <==> (c == ' ' || (9 <= (c as u32) && (c as u32) <= 13))),
{
    c.is_whitespace()
}

/// Whitespace as std `char::is_whitespace` decides it: among ASCII characters
/// the space and U+0009..=U+000D; beyond ASCII the Unicode property.
pub open spec fn whitespace_spec(c: char) -> bool {
    if (c as u32) < 128 {
        c == ' ' || (9 <= (c as u32) && (c as u32) <= 13)
    } else {
        char_is_whitespace(c)
    }
}

/// std `str::trim_start`.
pub open spec fn trim_start_spec(s: Seq<char>) -> Seq<char>
    decreases s.len(),
{
    if s.len() > 0 && whitespace_spec(s[0]) {
        trim_start_spec(s.drop_first())
    } else {
        s
    }
}

/// std `str::trim_end`.
pub open spec fn trim_end_spec(s: Seq<char>) -> Seq<char>
    decreases s.len(),
{
    if s.len() > 0 && whitespace_spec(s.last()) {
        trim_end_spec(s.drop_last())
    } else {
        s
    }
}

/// std `str::trim`.
pub open spec fn trim_spec(s: Seq<char>) -> Seq<char> {
    trim_end_spec(trim_start_spec(s))
}

/// Removes leading and trailing whitespace, as std `str::trim` does.
pub fn trim_chars(s: &[char]) -> (r: Vec<char>)
    ensures
        r@ == trim_spec(s@),
{
    let mut a: usize = 0;
    assert(s@.skip(0) =~= s@);
    while a < s.len() && is_whitespace(s[a])
        invariant
            a <= s.len(),
            trim_start_spec(s@) == trim_start_spec(s@.skip(a as int)),
        decreases s.len() - a,
    {
        assert(s@.skip(a as int).drop_first() =~= s@.skip(a + 1));
        a += 1;
    }
    let ghost t = s@.skip(a as int);
    assert(trim_start_spec(t) == t);
    let mut b: usize = s.len();
    assert(t.take(t.len() as int) =~= t);
    while b > a && is_whitespace(s[b - 1])
        invariant
            a <= b <= s.len(),
            t == s@.skip(a as int),
            trim_end_spec(t) == trim_end_spec(t.take(b - a)),
        decreases b,
    {
        assert(t.take(b - a).drop_last() =~= t.take(b - 1 - a));
        b -= 1;
    }
    assert(trim_end_spec(t.take(b - a)) == t.take(b - a));
    let mut out: Vec<char> = Vec::new();
    let mut k = a;
    while k < b
        invariant
            a <= k <= b,
            b <= s.len(),
            out@ == s@.subrange(a as int, k as int),
        decreases b - k,
    {
        out.push(s[k]);
        assert(s@.subrange(a as int, k as int).push(s@[k as int]) =~= s@.subrange(a as int, k + 1));
        k += 1;
    }
    assert(out@ =~= t.take(b - a));
    out
}

/// Removes trailing whitespace, as std `str::trim_end` does.
pub fn trim_end_chars(s: &[char]) -> (r: Vec<char>)
    ensures
        r@ == trim_end_spec(s@),
{
    let mut b: usize = s.len();
    assert(s@.take(s.len() as int) =~= s@);
    while b > 0 && is_whitespace(s[b - 1])
        invariant
            b <= s.len(),
            trim_end_spec(s@) == trim_end_spec(s@.take(b as int)),
        decreases b,
    {
        assert(s@.take(b as int).drop_last() =~= s@.take(b - 1));
        b -= 1;
    }
    let mut out: Vec<char> = Vec::new();
    let mut k: usize = 0;
    while k < b
        invariant
            k <= b,
            b <= s.len(),
            out@ == s@.take(k as int),
        decreases b - k,
    {
        out.push(s[k]);
        assert(s@.take(k as int).push(s@[k as int]) =~= s@.take(k + 1));
        k += 1;
    }
    out
}

/// std `str::split_whitespace`: the maximal runs of non-whitespace characters.
pub open spec fn words_spec(s: Seq<char>) -> Seq<Seq<char>>
    decreases s.len(),
{
    if s.len() == 0 {
        Seq::empty()
    } else {
        let w = words_spec(s.drop_last());
        let c = s.last();
        if whitespace_spec(c) {
            w
        } else if s.len() >= 2 && !whitespace_spec(s[s.len() - 2]) {
            w.update(w.len() - 1, w.last().push(c))
        } else {
            w.push(seq![c])
        }
    }
}

/// A sequence without whitespace is a single word.
pub proof fn lemma_words_single(x: Seq<char>)
    requires
        x.len() > 0,
        forall|i: int| 0 <= i < x.len() ==> !whitespace_spec(#[trigger] x[i]),
    ensures
        words_spec(x) == seq![x],
    decreases x.len(),
{
    let x0 = x.drop_last();
    assert(!whitespace_spec(x[x.len() - 1]));
    if x.len() == 1 {
        assert(x0.len() == 0);
        assert(words_spec(x0) =~= Seq::<Seq<char>>::empty());
        assert(words_spec(x) == words_spec(x0).push(seq![x.last()]));
        assert(x =~= seq![x.last()]);
        assert(words_spec(x) =~= seq![x]);
    } else {
        assert forall|i: int| 0 <= i < x0.len() implies !whitespace_spec(#[trigger] x0[i]) by {
            assert(x0[i] == x[i]);
        }
        lemma_words_single(x0);
        assert(!whitespace_spec(x[x.len() - 2]));
        assert(x0.push(x.last()) =~= x);
    }
}

/// Words do not run across whitespace: after a sequence ending in
/// whitespace, the words of what follows are added as they are.
pub proof fn lemma_words_concat(a: Seq<char>, b: Seq<char>)
    requires
        a.len() > 0,
        whitespace_spec(a.last()),
    ensures
        words_spec(a + b) == words_spec(a) + words_spec(b),
    decreases b.len(),
{
    let j = a + b;
    if b.len() == 0 {
        assert(j =~= a);
        assert(words_spec(a) + words_spec(b) =~= words_spec(a));
    } else {
        let b0 = b.drop_last();
        lemma_words_concat(a, b0);
        assert(j.drop_last() =~= a + b0);
        assert(j.last() == b.last());
        let w0 = words_spec(a + b0);
        let wa = words_spec(a);
        let wb0 = words_spec(b0);
        let c = b.last();
        if whitespace_spec(c) {
        } else if j.len() >= 2 && !whitespace_spec(j[j.len() - 2]) {
            if b0.len() == 0 {
                assert(j[j.len() - 2] == a.last());
            }
            assert(b0.len() > 0);
            assert(j[j.len() - 2] == b[b.len() - 2]);
            assert(b0.last() == b[b.len() - 2]);
            lemma_words_nonempty(b0);
            assert(words_spec(b) == wb0.update(wb0.len() - 1, wb0.last().push(c)));
            assert(words_spec(j) == w0.update(w0.len() - 1, w0.last().push(c)));
            assert(words_spec(j) =~= wa + wb0.update(wb0.len() - 1, wb0.last().push(c)));
        } else {
            if b.len() >= 2 {
                assert(j[j.len() - 2] == b[b.len() - 2]);
            }
            assert(words_spec(b) == wb0.push(seq![c]));
            assert(words_spec(j) =~= wa + wb0.push(seq![c]));
        }
    }
}

proof fn lemma_words_nonempty(s: Seq<char>)
    requires
        s.len() > 0,
        !whitespace_spec(s.last()),
    ensures
        words_spec(s).len() >= 1,
    decreases s.len(),
{
    if s.len() >= 2 && !whitespace_spec(s[s.len() - 2]) {
        assert(s.drop_last().last() == s[s.len() - 2]);
        lemma_words_nonempty(s.drop_last());
    }
}

/// The whitespace-separated words of `s`, as std `str::split_whitespace` yields them.
pub fn words_of(s: &[char]) -> (r: Vec<Vec<char>>)
    ensures
        views(r@) == words_spec(s@),
{
    let mut done: Vec<Vec<char>> = Vec::new();
    let mut cur: Vec<char> = Vec::new();
    let mut i: usize = 0;
    assert(s@.take(0) =~= Seq::<char>::empty());
    assert(views(done@) =~= words_spec(s@.take(0)));
    while i < s.len()
        invariant
            i <= s.len(),
            (cur@.len() > 0) == (i > 0 && !whitespace_spec(s@[i - 1])),
            cur@.len() > 0 ==> views(done@).push(cur@) == words_spec(s@.take(i as int)),
            cur@.len() == 0 ==> views(done@) == words_spec(s@.take(i as int)),
        decreases s.len() - i,
    {
        let ghost before = s@.take(i as int);
        let ghost after = s@.take(i + 1);
        assert(after.drop_last() =~= before);
        assert(after.last() == s@[i as int]);
        if i >= 1 {
            assert(after[after.len() - 2] == s@[i - 1]);
            assert(before.last() == s@[i - 1]);
        }
        let c = s[i];
        if is_whitespace(c) {
            if cur.len() > 0 {
                let finished = cur;
                done.push(finished);
                cur = Vec::new();
                assert(views(done@) =~= views(done@.drop_last()).push(finished@));
            }
        } else {
            if cur.len() > 0 {
                proof { lemma_words_nonempty(before); }
                let ghost w = words_spec(before);
                cur.push(c);
                assert(views(done@).push(cur@) =~= w.update(w.len() - 1, w.last().push(c)));
            } else {
                cur.push(c);
                assert(cur@ =~= seq![c]);
                assert(words_spec(after) == words_spec(before).push(seq![c]));
                assert(views(done@).push(cur@) =~= words_spec(before).push(seq![c]));
            }
        }
        i += 1;
    }
    assert(s@.take(s.len() as int) =~= s@);
    if cur.len() > 0 {
        done.push(cur);
        assert(views(done@) =~= views(done@.drop_last()).push(done@.last()@));
    }
    done
}

// ----------------------------------------------------------------------------
// Decimal numbers
// ----------------------------------------------------------------------------

/// The ASCII digit for a value below ten.
pub open spec fn digit_char(d: nat) -> char {
    if d == 0 { '0' }
    else if d == 1 { '1' }
    else if d == 2 { '2' }
    else if d == 3 { '3' }
    else if d == 4 { '4' }
    else if d == 5 { '5' }
    else if d == 6 { '6' }
    else if d == 7 { '7' }
    else if d == 8 { '8' }
    else { '9' }
}

/// The decimal representation of a natural number, without leading zeros
/// (as `{}` formats an unsigned integer).
pub open spec fn decimal(n: nat) -> Seq<char>
    decreases n,
{
    if n < 10 {
        seq![digit_char(n)]
    } else {
        decimal(n / 10).push(digit_char(n % 10))
    }
}

fn digit_exec(d: u64) -> (c: char)
    requires
        d < 10,
    ensures
        c == digit_char(d as nat),
{
    if d == 0 { '0' }
    else if d == 1 { '1' }
    else if d == 2 { '2' }
    else if d == 3 { '3' }
    else if d == 4 { '4' }
    else if d == 5 { '5' }
    else if d == 6 { '6' }
    else if d == 7 { '7' }
    else if d == 8 { '8' }
    else { '9' }
}

/// Appends the decimal representation of `n`.
pub fn push_decimal(out: &mut Vec<char>, n: u64)
    ensures
        final(out)@ == old(out)@ + decimal(n as nat),
    decreases n,
{
    if n < 10 {
        out.push(digit_exec(n));
        assert(old(out)@ + decimal(n as nat) =~= old(out)@.push(digit_char(n as nat)));
    } else {
        push_decimal(out, n / 10);
        out.push(digit_exec(n % 10));
        assert(old(out)@ + decimal(n as nat) =~= old(out)@ + decimal((n / 10) as nat) + seq![digit_char((n % 10) as nat)]);
    }
}

/// The decimal representation of `n` as a `String`.
pub fn decimal_string(n: u64) -> (r: String)
    ensures
        r@ == decimal(n as nat),
{
    let mut v: Vec<char> = Vec::new();
    push_decimal(&mut v, n);
    assert(v@ =~= decimal(n as nat));
    string_of(&v)
}

/// The value of a character if it is an ASCII digit.
pub open spec fn digit_value(c: char) -> nat {
    ((c as u32) - 48) as nat
}

pub open spec fn is_digit(c: char) -> bool {
    48 <= (c as u32) && (c as u32) <= 57
}

pub open spec fn all_digits(s: Seq<char>) -> bool {
    forall|i: int| 0 <= i < s.len() ==> is_digit(#[trigger] s[i])
}

/// The value of a sequence of decimal digits.
pub open spec fn digits_value(s: Seq<char>) -> nat
    decreases s.len(),
{
    if s.len() == 0 {
        0
    } else {
        digits_value(s.drop_last()) * 10 + digit_value(s.last())
    }
}

/// std `u32::from_str`: an optional `+` sign followed by one or more ASCII
/// digits whose value fits in a `u32`.
pub open spec fn parse_u32_spec(s: Seq<char>) -> Option<u32> {
    let d = if s.len() > 0 && s[0] == '+' { s.drop_first() } else { s };
    if d.len() > 0 && all_digits(d) && digits_value(d) <= u32::MAX {
        Some(digits_value(d) as u32)
    } else {
        None
    }
}

proof fn lemma_digits_value_monotone(s: Seq<char>, i: int)
    requires
        0 <= i <= s.len(),
        all_digits(s),
    ensures
        digits_value(s.take(i)) <= digits_value(s),
    decreases s.len() - i,
{
    if i < s.len() {
        lemma_digits_value_monotone(s, i + 1);
        assert(s.take(i + 1).drop_last() =~= s.take(i));
        assert(is_digit(s[i]));
    } else {
        assert(s.take(i) =~= s);
    }
}

proof fn lemma_digits_step(d: Seq<char>, k: int)
    requires
        0 <= k < d.len(),
        all_digits(d.take(k)),
        is_digit(d[k]),
    ensures
        all_digits(d.take(k + 1)),
        digits_value(d.take(k + 1)) == digits_value(d.take(k)) * 10 + digit_value(d[k]),
{
    assert(d.take(k + 1).drop_last() =~= d.take(k));
    assert(d.take(k + 1).last() == d[k]);
    assert forall|i: int| 0 <= i < k + 1 implies is_digit(#[trigger] d.take(k + 1)[i]) by {
        if i < k {
            assert(d.take(k + 1)[i] == d.take(k)[i]);
        }
    }
}

proof fn lemma_not_all_digits(d: Seq<char>, k: int)
    requires
        0 <= k < d.len(),
        !is_digit(d[k]),
    ensures
        !all_digits(d),
{
}

/// Parses a `u32` as std `str::parse::<u32>` does; `None` where std reports an error.
pub fn parse_u32(s: &[char]) -> (r: Option<u32>)
    ensures
        r == parse_u32_spec(s@),
{
    let start: usize = if s.len() > 0 && s[0] == '+' { 1 } else { 0 };
    let ghost d = if s@.len() > 0 && s@[0] == '+' { s@.drop_first() } else { s@ };
    assert(d =~= s@.skip(start as int));
    if start >= s.len() {
        return None;
    }
    let mut value: u64 = 0;
    let mut i = start;
    assert(d.take(0) =~= Seq::<char>::empty());
    while i < s.len()
        invariant
            start <= i <= s.len(),
            d == s@.skip(start as int),
            d == (if s@.len() > 0 && s@[0] == '+' { s@.drop_first() } else { s@ }),
            d.len() > 0,
            all_digits(d.take(i - start)),
            value == digits_value(d.take(i - start)),
            value <= u32::MAX,
        decreases s.len() - i,
    {
        let c = s[i];
        let ghost k = i - start;
        assert(d[k] == c);
        let cv = c as u32;
        if cv < 48 || cv > 57 {
            proof { lemma_not_all_digits(d, k); }
            return None;
        }
        let dv = (cv - 48) as u64;
        proof { lemma_digits_step(d, k); }
        assert(value * 10 <= 42949672950) by (nonlinear_arith)
            requires
                value <= u32::MAX,
        ;
        let next = value * 10 + dv;
        if next > u32::MAX as u64 {
            proof {
                if all_digits(d) {
                    lemma_digits_value_monotone(d, k + 1);
                }
            }
            return None;
        }
        value = next;
        i += 1;
    }
    assert(d.take(s.len() - start) =~= d);
    Some(value as u32)
}

// ----------------------------------------------------------------------------
// Case folding
// ----------------------------------------------------------------------------

/// What std `str::to_lowercase` returns for a string.
pub uninterp spec fn lowercase_spec(s: Seq<char>) -> Seq<char>;

/// The lowercase form of an ASCII character: `A`..=`Z` become `a`..=`z`,
/// everything else stays.
pub open spec fn ascii_lower(c: char) -> char {
    if 65 <= (c as u32) && (c as u32) <= 90 {
        ((c as u32) + 32) as char
    } else {
        c
    }
}

/// Every character is ASCII.
pub open spec fn all_ascii(s: Seq<char>) -> bool {
    forall|i: int| 0 <= i < s.len() ==> (s[i] as u32) < 128
}

/// std `str::to_lowercase`: the Unicode lowercase mapping of the string. The
/// contract names the result and states its ASCII part: a string of ASCII
/// characters has `A`..=`Z` mapped to `a`..=`z` and everything else kept.
#[verifier::external_body]
pub(crate) fn to_lowercase(s: &str) -> (r: String)
    ensures
        r@ == lowercase_spec(s@),
        all_ascii(s@) ==> r@ == Seq::new(s@.len(), |i: int| ascii_lower(s@[i])),
{
    s.to_lowercase()
}

/// The lowercase form of a character sequence (std `str::to_lowercase`).
pub fn lowercase_chars(s: &[char]) -> (r: Vec<char>)
    ensures
        r@ == lowercase_spec(s@),
        all_ascii(s@) ==> r@ == Seq::new(s@.len(), |i: int| ascii_lower(s@[i])),
{
    let text = string_of(s);
    let lower = to_lowercase(text.as_str());
    chars_of(lower.as_str())
}

} // verus!
