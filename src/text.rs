use vstd::prelude::*;

verus! {

/// Relies on `String::push`: the character is appended at the end.
pub assume_specification[ String::push ](s: &mut String, ch: char)
    ensures
        final(s)@ == old(s)@.push(ch),
;

/// Relies on `str`'s `==`: two strings are equal when they hold the same characters.
#[verifier::external_body]
pub(crate) fn same_text(a: &str, b: &str) -> (r: bool)
    ensures
        r == (a@ == b@),
{
    a == b
}

/// The characters of `s`, in order.
pub fn chars_of(s: &str) -> (r: Vec<char>)
    ensures
        r@ == s@,
{
    let mut r: Vec<char> = Vec::new();
    for c in it: s.chars()
        invariant
            r@ == it.seq().take(it.index() as int),
    {
        r.push(c);
    }
    r
}

/// Appends `cs[from..to]` to `out`.
pub fn push_range(out: &mut String, cs: &[char], from: usize, to: usize)
    requires
        from <= to <= cs@.len(),
    ensures
        final(out)@ == old(out)@ + cs@.subrange(from as int, to as int),
{
    let mut i: usize = from;
    while i < to
        invariant
            from <= i <= to <= cs@.len(),
            out@ == old(out)@ + cs@.subrange(from as int, i as int),
        decreases to - i,
    {
        out.push(cs[i]);
        i += 1;
        assert(cs@.subrange(from as int, i as int) == cs@.subrange(from as int, i - 1).push(
            cs@[i - 1],
        ));
    }
}

/// A string holding `cs[from..to]`.
pub fn string_of_range(cs: &[char], from: usize, to: usize) -> (r: String)
    requires
        from <= to <= cs@.len(),
    ensures
        r@ == cs@.subrange(from as int, to as int),
{
    let mut r = String::new();
    push_range(&mut r, cs, from, to);
    r
}

/// Appends all of `s` to `out`.
pub fn push_str(out: &mut String, s: &str)
    ensures
        final(out)@ == old(out)@ + s@,
{
    let cs = chars_of(s);
    push_range(out, cs.as_slice(), 0, cs.len());
    assert(cs@.subrange(0, cs@.len() as int) == cs@);
}

} // verus!
