//! File paths as text: the directory part, the file stem and the extension.
//!
//! The file name is what follows the last `/`. Its extension is what follows its
//! last `.`, unless that `.` is the name's first character (`.profile` has none);
//! the stem is what precedes that `.`, or the whole name where there is no extension.
use vstd::prelude::*;

use crate::text::{chars_of, push_range, string_of_range};

verus! {

/// The position where the file name starts: just past the last `/`, or 0.
pub open spec fn name_start(p: Seq<char>) -> int
    decreases p.len(),
{
    if p.len() == 0 {
        0
    } else if p.last() == '/' {
        p.len() as int
    } else {
        name_start(p.drop_last())
    }
}

/// The position of the last `.` in `n`, or -1 where there is none.
pub open spec fn last_dot(n: Seq<char>) -> int
    decreases n.len(),
{
    if n.len() == 0 {
        -1
    } else if n.last() == '.' {
        n.len() - 1
    } else {
        last_dot(n.drop_last())
    }
}

/// The directory part, with its final `/` (empty where the path has none).
pub open spec fn directory(p: Seq<char>) -> Seq<char> {
    p.subrange(0, name_start(p))
}

pub open spec fn file_name(p: Seq<char>) -> Seq<char> {
    p.subrange(name_start(p), p.len() as int)
}

pub open spec fn extension(p: Seq<char>) -> Option<Seq<char>> {
    let n = file_name(p);
    if last_dot(n) > 0 {
        Some(n.subrange(last_dot(n) + 1, n.len() as int))
    } else {
        None
    }
}

pub open spec fn file_stem(p: Seq<char>) -> Seq<char> {
    let n = file_name(p);
    if last_dot(n) > 0 {
        n.subrange(0, last_dot(n))
    } else {
        n
    }
}

/// `p` with its stem replaced by `stem`: same directory, same extension.
pub open spec fn with_stem(p: Seq<char>, stem: Seq<char>) -> Seq<char> {
    directory(p) + stem + match extension(p) {
        Some(e) => seq!['.'] + e,
        None => seq![],
    }
}

proof fn lemma_name_start_bounds(p: Seq<char>)
    ensures
        0 <= name_start(p) <= p.len(),
        name_start(p) > 0 ==> p[name_start(p) - 1] == '/',
        forall|i: int| name_start(p) <= i < p.len() ==> p[i] != '/',
    decreases p.len(),
{
    if p.len() > 0 && p.last() != '/' {
        let q = p.drop_last();
        lemma_name_start_bounds(q);
        assert forall|i: int| name_start(p) <= i < p.len() implies p[i] != '/' by {
            if i < q.len() {
                assert(p[i] == q[i]);
            }
        }
    }
}

proof fn lemma_last_dot_bounds(n: Seq<char>)
    ensures
        -1 <= last_dot(n) < n.len(),
        last_dot(n) >= 0 ==> n[last_dot(n)] == '.',
        forall|i: int| last_dot(n) < i < n.len() ==> n[i] != '.',
    decreases n.len(),
{
    if n.len() > 0 && n.last() != '.' {
        let m = n.drop_last();
        lemma_last_dot_bounds(m);
        assert forall|i: int| last_dot(n) < i < n.len() implies n[i] != '.' by {
            if i < m.len() {
                assert(n[i] == m[i]);
            }
        }
    }
}

/// Text without a `/` at the end leaves the file name's start where it was.
proof fn lemma_name_start_append(a: Seq<char>, b: Seq<char>)
    requires
        forall|i: int| 0 <= i < b.len() ==> b[i] != '/',
    ensures
        name_start(a + b) == name_start(a),
    decreases b.len(),
{
    if b.len() > 0 {
        assert((a + b).drop_last() == a + b.drop_last());
        lemma_name_start_append(a, b.drop_last());
    } else {
        assert(a + b == a);
    }
}

/// Text without a `.` at the end leaves the last `.` where it was.
proof fn lemma_last_dot_append(a: Seq<char>, b: Seq<char>)
    requires
        forall|i: int| 0 <= i < b.len() ==> b[i] != '.',
    ensures
        last_dot(a + b) == last_dot(a),
    decreases b.len(),
{
    if b.len() > 0 {
        assert((a + b).drop_last() == a + b.drop_last());
        lemma_last_dot_append(a, b.drop_last());
    } else {
        assert(a + b == a);
    }
}

/// Giving a file a new stem keeps its directory. It keeps its extension too, as long
/// as the new stem holds no `/`, is not empty where there is an extension to keep, and
/// holds no `.` after its first character where there is none.
pub proof fn lemma_with_stem_keeps_extension(p: Seq<char>, stem: Seq<char>)
    requires
        forall|i: int| 0 <= i < stem.len() ==> stem[i] != '/',
        extension(p) is Some ==> stem.len() > 0,
        extension(p) is None ==> forall|i: int| 1 <= i < stem.len() ==> stem[i] != '.',
    ensures
        directory(with_stem(p, stem)) == directory(p),
        extension(with_stem(p, stem)) == extension(p),
{
    let d = directory(p);
    let n = file_name(p);
    lemma_name_start_bounds(p);
    lemma_last_dot_bounds(n);
    let suffix = match extension(p) {
        Some(e) => seq!['.'] + e,
        None => seq![],
    };
    let q = with_stem(p, stem);
    assert(q == d + (stem + suffix));
    assert forall|i: int| 0 <= i < (stem + suffix).len() implies (stem + suffix)[i] != '/' by {
        if i >= stem.len() {
            assert(suffix[i - stem.len()] == n[last_dot(n) + i - stem.len()]);
        }
    }
    lemma_name_start_append(d, stem + suffix);
    assert(name_start(d) == d.len()) by {
        if d.len() > 0 {
            assert(d.last() == '/');
        }
    }
    assert(directory(q) == d);
    assert(file_name(q) == stem + suffix);
    match extension(p) {
        Some(e) => {
            assert forall|i: int| 0 <= i < e.len() implies e[i] != '.' by {
                assert(e[i] == n[last_dot(n) + 1 + i]);
            }
            lemma_last_dot_append(stem.push('.'), e);
            assert(stem + suffix == stem.push('.') + e);
            assert(last_dot(stem.push('.')) == stem.len()) by {
                assert(stem.push('.').last() == '.');
            }
            assert((stem + suffix).subrange(stem.len() + 1 as int, (stem + suffix).len() as int) == e);
        },
        None => {
            assert(stem + suffix == stem);
            lemma_last_dot_bounds(stem);
        },
    }
}

/// The position where the file name of `cs` starts.
fn name_start_of(cs: &[char]) -> (r: usize)
    ensures
        r == name_start(cs@),
{
    let mut i = cs.len();
    assert(cs@.take(i as int) == cs@);
    while i > 0 && cs[i - 1] != '/'
        invariant
            i <= cs@.len(),
            name_start(cs@) == name_start(cs@.take(i as int)),
        decreases i,
    {
        assert(cs@.take(i as int).drop_last() == cs@.take(i - 1));
        i -= 1;
    }
    assert(cs@.take(cs@.len() as int) == cs@);
    i
}

/// The position of the last `.` of `cs[from..]`, relative to `from`; -1 where none.
fn last_dot_after(cs: &[char], from: usize) -> (r: Option<usize>)
    requires
        from <= cs@.len(),
    ensures
        match r {
            Some(k) => last_dot(cs@.subrange(from as int, cs@.len() as int)) == k && k < cs@.len()
                - from,
            None => last_dot(cs@.subrange(from as int, cs@.len() as int)) == -1,
        },
{
    let ghost n = cs@.subrange(from as int, cs@.len() as int);
    let mut j = cs.len();
    assert(n.take(j - from) == n);
    while j > from && cs[j - 1] != '.'
        invariant
            from <= j <= cs@.len(),
            n == cs@.subrange(from as int, cs@.len() as int),
            last_dot(n) == last_dot(n.take(j - from)),
        decreases j,
    {
        assert(n.take(j - from).drop_last() == n.take(j - from - 1));
        j -= 1;
    }
    proof {
        lemma_last_dot_bounds(n);
    }
    if j > from {
        Some(j - 1 - from)
    } else {
        None
    }
}

/// The stem of the file that `path` names.
pub fn file_stem_of(path: &str) -> (r: String)
    ensures
        r@ == file_stem(path@),
{
    let cs = chars_of(path);
    let start = name_start_of(cs.as_slice());
    proof {
        lemma_name_start_bounds(cs@);
    }
    let dot = last_dot_after(cs.as_slice(), start);
    let n = cs.len();
    if let Some(k) = dot {
        if k > 0 {
            assert(file_name(cs@).subrange(0, k as int) == cs@.subrange(
                start as int,
                start + k,
            ));
            return string_of_range(cs.as_slice(), start, start + k);
        }
    }
    string_of_range(cs.as_slice(), start, n)
}

/// `path` with the stem of its file name replaced by `stem`.
pub fn replace_stem(path: &str, stem: &str) -> (r: String)
    ensures
        r@ == with_stem(path@, stem@),
{
    let cs = chars_of(path);
    let start = name_start_of(cs.as_slice());
    proof {
        lemma_name_start_bounds(cs@);
    }
    let mut out = string_of_range(cs.as_slice(), 0, start);
    let stem_chars = chars_of(stem);
    push_range(&mut out, stem_chars.as_slice(), 0, stem_chars.len());
    assert(stem_chars@.subrange(0, stem_chars@.len() as int) == stem@);
    let len = cs.len();
    let dot = last_dot_after(cs.as_slice(), start);
    if let Some(k) = dot {
        if k > 0 {
            let ghost n = file_name(cs@);
            assert(n.subrange(k + 1, n.len() as int) == cs@.subrange(
                start + k + 1,
                cs@.len() as int,
            ));
            push_range(&mut out, cs.as_slice(), start + k, len);
            assert(cs@.subrange(start + k, cs@.len() as int) == seq!['.'] + cs@.subrange(
                start + k + 1,
                cs@.len() as int,
            )) by {
                lemma_last_dot_bounds(n);
                assert(cs@[start + k] == n[k as int]);
            }
            return out;
        }
    }
    assert(out@ == with_stem(path@, stem@));
    out
}

} // verus!
