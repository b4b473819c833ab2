//! Templates: the brace-token grammar, its compiler, and rendering of a compiled template.
use vstd::prelude::*;
use vstd::std_specs::iter::IteratorSpec;

use crate::text::{chars_of, push_range, string_of_range};

verus! {

/// One piece of a compiled template.
#[derive(Clone, Debug, PartialEq, Eq)]
pub enum Segment {
    /// Text copied as it stands.
    Literal(String),
    /// The running index, zero-padded to at least this many digits.
    Numeric(usize),
    /// The source file's name, cut to this many characters (1 keeps the whole name).
    Filename(usize),
}

/// What a segment stands for, with its text as a sequence of characters.
pub ghost enum SegmentView {
    Literal(Seq<char>),
    Numeric(usize),
    Filename(usize),
}

impl View for Segment {
    type V = SegmentView;

    open spec fn view(&self) -> SegmentView {
        match self {
            Segment::Literal(s) => SegmentView::Literal(s@),
            Segment::Numeric(w) => SegmentView::Numeric(*w),
            Segment::Filename(w) => SegmentView::Filename(*w),
        }
    }
}

pub open spec fn views_of(segments: Seq<Segment>) -> Seq<SegmentView> {
    segments.map_values(|s: Segment| s@)
}

// ---------------------------------------------------------------------------
// The grammar.
//
// A token is `{X}` or `{X:D}`: `X` one ASCII letter or digit, `D` one or more
// ASCII digits. `n`, `N` and `0` make a numeric segment; `o`, `O`, `f` and `F`
// a filename segment; any other `X` makes a token that yields no segment at
// all, so its text disappears from the output. Every character that is not
// part of a token belongs to a literal segment. Tokens are found left to
// right and never overlap.
// ---------------------------------------------------------------------------

pub open spec fn is_digit(c: char) -> bool {
    '0' <= c <= '9'
}

pub open spec fn is_specifier(c: char) -> bool {
    ('a' <= c <= 'z') || ('A' <= c <= 'Z') || is_digit(c)
}

pub open spec fn digit_value(c: char) -> nat {
    (c as u32 - '0' as u32) as nat
}

/// The number of ASCII digits in a row from position `j` on.
pub open spec fn digit_run(s: Seq<char>, j: int) -> nat
    decreases s.len() - j,
{
    if 0 <= j < s.len() && is_digit(s[j]) {
        1 + digit_run(s, j + 1)
    } else {
        0
    }
}

/// The number that a string of decimal digits writes.
pub open spec fn digits_value(ds: Seq<char>) -> nat
    decreases ds.len(),
{
    if ds.len() == 0 {
        0
    } else {
        digits_value(ds.drop_last()) * 10 + digit_value(ds.last())
    }
}

/// The length of the token that starts at position `i`, or 0 where none does.
pub open spec fn token_len(s: Seq<char>, i: int) -> nat {
    if 0 <= i && i + 2 < s.len() && s[i] == '{' && is_specifier(s[i + 1]) {
        if s[i + 2] == '}' {
            3
        } else if s[i + 2] == ':' && digit_run(s, i + 3) > 0 && i + 3 + digit_run(s, i + 3)
            < s.len() && s[i + 3 + digit_run(s, i + 3)] == '}' {
            4 + digit_run(s, i + 3)
        } else {
            0
        }
    } else {
        0
    }
}

/// A width as written; one that is zero or does not fit a `usize` counts as 1.
pub open spec fn width_of_value(v: nat) -> usize {
    if 1 <= v <= usize::MAX {
        v as usize
    } else {
        1
    }
}

/// The width of the token at `i`: 1 where none is written.
pub open spec fn token_width(s: Seq<char>, i: int) -> usize {
    if s[i + 2] == '}' {
        1
    } else {
        width_of_value(digits_value(s.subrange(i + 3, i + 3 + digit_run(s, i + 3))))
    }
}

/// The segment that the token at `i` yields, if any.
pub open spec fn token_segment(s: Seq<char>, i: int) -> Option<SegmentView> {
    let c = s[i + 1];
    if c == 'n' || c == 'N' || c == '0' {
        Some(SegmentView::Numeric(token_width(s, i)))
    } else if c == 'o' || c == 'O' || c == 'f' || c == 'F' {
        Some(SegmentView::Filename(token_width(s, i)))
    } else {
        None
    }
}

pub open spec fn option_seq(o: Option<SegmentView>) -> Seq<SegmentView> {
    match o {
        Some(v) => seq![v],
        None => seq![],
    }
}

/// The literal segment for `s[from..to]`; none where that span is empty.
pub open spec fn literal_span(s: Seq<char>, from: int, to: int) -> Seq<SegmentView> {
    if from < to {
        seq![SegmentView::Literal(s.subrange(from, to))]
    } else {
        seq![]
    }
}

/// The segments of `s` from position `i` on, where the text from `left` up to `i`
/// has been passed over as literal.
pub open spec fn compile_from(s: Seq<char>, i: int, left: int) -> Seq<SegmentView>
    decreases s.len() - i,
{
    if i < 0 || i >= s.len() {
        literal_span(s, left, s.len() as int)
    } else if token_len(s, i) > 0 {
        literal_span(s, left, i) + option_seq(token_segment(s, i)) + compile_from(
            s,
            i + token_len(s, i),
            i + token_len(s, i),
        )
    } else {
        compile_from(s, i + 1, left)
    }
}

/// The compiled form of template text `s`.
pub open spec fn compile(s: Seq<char>) -> Seq<SegmentView> {
    compile_from(s, 0, 0)
}

fn is_digit_char(c: char) -> (r: bool)
    ensures
        r == is_digit(c),
{
    '0' <= c && c <= '9'
}

fn is_specifier_char(c: char) -> (r: bool)
    ensures
        r == is_specifier(c),
{
    ('a' <= c && c <= 'z') || ('A' <= c && c <= 'Z') || is_digit_char(c)
}

/// The width written after the colon of a token whose digits are `cs[from..to]`.
fn quantifier(cs: &[char], from: usize, to: usize) -> (r: usize)
    requires
        from <= to <= cs@.len(),
        forall|k: int| from <= k < to ==> is_digit(#[trigger] cs@[k]),
    ensures
        r == width_of_value(digits_value(cs@.subrange(from as int, to as int))),
{
    let mut value: usize = 0;
    let mut too_big = false;
    let mut j = from;
    while j < to
        invariant
            from <= j <= to <= cs@.len(),
            forall|k: int| from <= k < to ==> is_digit(#[trigger] cs@[k]),
            !too_big ==> value as nat == digits_value(cs@.subrange(from as int, j as int)),
            too_big ==> digits_value(cs@.subrange(from as int, j as int)) > usize::MAX,
        decreases to - j,
    {
        let ghost before = cs@.subrange(from as int, j as int);
        let d = (cs[j] as u32 - '0' as u32) as usize;
        assert(cs@.subrange(from as int, j + 1).drop_last() == before);
        if !too_big {
            match value.checked_mul(10) {
                Some(tens) => match tens.checked_add(d) {
                    Some(v) => value = v,
                    None => too_big = true,
                },
                None => {
                    too_big = true;
                },
            }
        }
        j += 1;
    }
    if too_big || value == 0 {
        1
    } else {
        value
    }
}

/// The length of the token at `cs[i..]` (0 where none starts there), and its segment.
fn scan_token(cs: &[char], i: usize) -> (r: (usize, Option<Segment>))
    requires
        i < cs@.len(),
    ensures
        r.0 == token_len(cs@, i as int),
        i + r.0 <= cs@.len(),
        r.0 > 0 ==> option_seq(match r.1 {
            Some(seg) => Some(seg@),
            None => None,
        }) == option_seq(token_segment(cs@, i as int)),
{
    let n = cs.len();
    if n - i <= 2 || cs[i] != '{' || !is_specifier_char(cs[i + 1]) {
        return (0, None);
    }
    let len: usize;
    let width: usize;
    if cs[i + 2] == '}' {
        len = 3;
        width = 1;
    } else if cs[i + 2] == ':' {
        let start = i + 3;
        let mut j = start;
        while j < n && is_digit_char(cs[j])
            invariant
                start <= j <= n == cs@.len(),
                start == i + 3,
                forall|k: int| start <= k < j ==> is_digit(#[trigger] cs@[k]),
                digit_run(cs@, start as int) == (j - start) + digit_run(cs@, j as int),
            decreases n - j,
        {
            j += 1;
        }
        if j == start || j >= n || cs[j] != '}' {
            return (0, None);
        }
        len = j - i + 1;
        width = quantifier(cs, start, j);
    } else {
        return (0, None);
    }
    let c = cs[i + 1];
    let segment = if c == 'n' || c == 'N' || c == '0' {
        Some(Segment::Numeric(width))
    } else if c == 'o' || c == 'O' || c == 'f' || c == 'F' {
        Some(Segment::Filename(width))
    } else {
        None
    };
    (len, segment)
}

// ---------------------------------------------------------------------------
// Rendering.
// ---------------------------------------------------------------------------

pub open spec fn digit_char(d: nat) -> char {
    ((d + 48) as u8) as char
}

/// The decimal digits of `n`, without leading zeros.
pub open spec fn decimal(n: nat) -> Seq<char>
    decreases n,
{
    if n < 10 {
        seq![digit_char(n)]
    } else {
        decimal(n / 10).push(digit_char(n % 10))
    }
}

/// `n` in decimal, left-padded with zeros to at least `width` characters.
pub open spec fn zero_padded(n: nat, width: nat) -> Seq<char> {
    let d = decimal(n);
    if d.len() < width {
        Seq::new((width - d.len()) as nat, |k: int| '0') + d
    } else {
        d
    }
}

/// `name` cut to its first `w` characters; a width of 1 keeps the whole name.
pub open spec fn cut_name(name: Seq<char>, w: usize) -> Seq<char> {
    if w == 1 || w >= name.len() {
        name
    } else {
        name.take(w as int)
    }
}

pub open spec fn max_width(a: nat, b: nat) -> nat {
    if a >= b {
        a
    } else {
        b
    }
}

/// The text of one segment for running index `index`, batch width `width` (0 when
/// unknown) and file name `name`.
pub open spec fn rendered_segment(seg: SegmentView, index: nat, width: nat, name: Seq<char>) -> Seq<
    char,
> {
    match seg {
        SegmentView::Literal(t) => t,
        SegmentView::Numeric(w) => zero_padded(index, max_width(w as nat, width)),
        SegmentView::Filename(w) => cut_name(name, w),
    }
}

/// The text of a whole segment sequence: its segments' texts, in order.
pub open spec fn rendered(segs: Seq<SegmentView>, index: nat, width: nat, name: Seq<char>) -> Seq<
    char,
>
    decreases segs.len(),
{
    if segs.len() == 0 {
        seq![]
    } else {
        rendered(segs.drop_last(), index, width, name) + rendered_segment(
            segs.last(),
            index,
            width,
            name,
        )
    }
}

/// A larger number never has fewer digits.
pub proof fn lemma_decimal_len_monotonic(a: nat, b: nat)
    requires
        a <= b,
    ensures
        decimal(a).len() <= decimal(b).len(),
    decreases b,
{
    if a >= 10 {
        assert(a / 10 <= b / 10) by (nonlinear_arith)
            requires
                a <= b,
        ;
        lemma_decimal_len_monotonic(a / 10, b / 10);
    }
}

pub proof fn lemma_decimal_len_at_most_20(n: u64)
    ensures
        decimal(n as nat).len() <= 20,
{
    lemma_decimal_len_monotonic(n as nat, u64::MAX as nat);
    reveal_with_fuel(decimal, 21);
    assert(decimal(u64::MAX as nat).len() == 20);
}

fn digit_to_char(d: u64) -> (r: char)
    requires
        d < 10,
    ensures
        r == digit_char(d as nat),
{
    ((d as u8) + 48) as char
}

/// The number of decimal digits of `n`.
pub fn decimal_len(n: u64) -> (r: usize)
    ensures
        r == decimal(n as nat).len(),
{
    proof {
        lemma_decimal_len_at_most_20(n);
    }
    let mut m = n;
    let mut count: usize = 1;
    while m >= 10
        invariant
            count >= 1,
            count + decimal(m as nat).len() == 1 + decimal(n as nat).len(),
            decimal(n as nat).len() <= 20,
        decreases m,
    {
        m = m / 10;
        count += 1;
    }
    count
}

/// Appends the decimal digits of `n`.
fn push_decimal(out: &mut String, n: u64)
    ensures
        final(out)@ == old(out)@ + decimal(n as nat),
    decreases n,
{
    if n >= 10 {
        push_decimal(out, n / 10);
    }
    out.push(digit_to_char(n % 10));
}

/// Appends `n` in decimal, zero-padded to at least `width` characters.
fn push_zero_padded(out: &mut String, n: u64, width: usize)
    ensures
        final(out)@ == old(out)@ + zero_padded(n as nat, width as nat),
{
    let len = decimal_len(n);
    let ghost start = out@;
    let mut k: usize = len;
    while k < width
        invariant
            len <= k,
            len < width ==> k <= width,
            len >= width ==> k == len,
            out@ == start + Seq::new((k - len) as nat, |j: int| '0'),
        decreases width - k,
    {
        out.push('0');
        k += 1;
        assert(Seq::new((k - len) as nat, |j: int| '0') == Seq::new(
            (k - 1 - len) as nat,
            |j: int| '0',
        ).push('0'));
    }
    let ghost pad = out@;
    push_decimal(out, n);
    let ghost zeros = Seq::new((k - len) as nat, |j: int| '0');
    assert(out@ == start + (zeros + decimal(n as nat)));
    if len >= width {
        assert(zeros.len() == 0);
        assert(zeros + decimal(n as nat) =~= decimal(n as nat));
    }
}

/// Appends the first `w` characters of `name` (all of them where `w` is 1).
fn push_cut_name(out: &mut String, name: &[char], w: usize)
    ensures
        final(out)@ == old(out)@ + cut_name(name@, w),
{
    if w == 1 || w >= name.len() {
        push_range(out, name, 0, name.len());
        assert(name@.subrange(0, name@.len() as int) == name@);
    } else {
        push_range(out, name, 0, w);
    }
}

fn push_segment(out: &mut String, seg: &Segment, index: u32, width: usize, name: &[char])
    ensures
        final(out)@ == old(out)@ + rendered_segment(seg@, index as nat, width as nat, name@),
{
    match seg {
        Segment::Literal(t) => {
            let cs = chars_of(t.as_str());
            push_range(out, cs.as_slice(), 0, cs.len());
            assert(cs@.subrange(0, cs@.len() as int) == cs@);
        },
        Segment::Numeric(w) => {
            let w = if *w >= width {
                *w
            } else {
                width
            };
            push_zero_padded(out, index as u64, w);
        },
        Segment::Filename(w) => {
            push_cut_name(out, name, *w);
        },
    }
}

/// A segment as compilation makes it: a width of at least 1, a literal that is not empty.
pub open spec fn segment_wf(seg: SegmentView) -> bool {
    match seg {
        SegmentView::Literal(t) => t.len() > 0,
        SegmentView::Numeric(w) => w >= 1,
        SegmentView::Filename(w) => w >= 1,
    }
}

proof fn lemma_compile_from_wf(s: Seq<char>, i: int, left: int)
    requires
        0 <= left <= i,
    ensures
        forall|k: int|
            0 <= k < compile_from(s, i, left).len() ==> segment_wf(
                #[trigger] compile_from(s, i, left)[k],
            ),
    decreases s.len() - i,
{
    if i < 0 || i >= s.len() {
        let lit = literal_span(s, left, s.len() as int);
        assert(compile_from(s, i, left) == lit);
        assert forall|k: int| 0 <= k < lit.len() implies segment_wf(#[trigger] lit[k]) by {
            assert(lit[k] == SegmentView::Literal(s.subrange(left, s.len() as int)));
        }
    } else if token_len(s, i) > 0 {
        let next = i + token_len(s, i);
        lemma_compile_from_wf(s, next, next);
        let head = literal_span(s, left, i) + option_seq(token_segment(s, i));
        assert forall|k: int| 0 <= k < head.len() implies segment_wf(#[trigger] head[k]) by {}
        let all = head + compile_from(s, next, next);
        assert(compile_from(s, i, left) == all);
        assert forall|k: int| 0 <= k < all.len() implies segment_wf(#[trigger] all[k]) by {
            if k >= head.len() {
                assert(all[k] == compile_from(s, next, next)[k - head.len()]);
            } else {
                assert(all[k] == head[k]);
            }
        }
    } else {
        lemma_compile_from_wf(s, i + 1, left);
        assert(compile_from(s, i, left) == compile_from(s, i + 1, left));
    }
}

/// Every segment of a compiled template has a width of at least 1, and no literal
/// segment is empty.
pub proof fn lemma_compiled_segments_are_wf(text: Seq<char>)
    ensures
        forall|k: int| 0 <= k < compile(text).len() ==> segment_wf(#[trigger] compile(text)[k]),
{
    lemma_compile_from_wf(text, 0, 0);
}

/// Compiling the same text twice gives the same segments.
pub proof fn lemma_compile_is_deterministic(first: Template, second: Template, text: Seq<char>)
    requires
        first@ == compile(text),
        second@ == compile(text),
    ensures
        first@ == second@,
{
}

/// Compiles template text into segments.
pub struct TemplateParser {}

/// A compiled template: its segments in order.
#[derive(Clone, Debug)]
pub struct Template {
    segments: Vec<Segment>,
}

impl View for Template {
    type V = Seq<SegmentView>;

    closed spec fn view(&self) -> Seq<SegmentView> {
        views_of(self.segments@)
    }
}

impl Template {
    /// The segments, in order.
    pub fn segments(&self) -> (r: std::slice::Iter<'_, Segment>)
        ensures
            views_of(r.remaining().map_values(|s: &Segment| *s)) == self@,
    {
        let r = self.segments.as_slice().iter();
        proof {
            broadcast use vstd::std_specs::slice::axiom_spec_slice_iter;

            assert(r.remaining().map_values(|s: &Segment| *s) =~= self.segments@);
        }
        r
    }

    /// The stem that this template gives for running index `index`, batch width
    /// `width` (0 when the batch size is unknown) and file name `name`.
    pub fn render(&self, index: u32, width: usize, name: &str) -> (r: String)
        ensures
            r@ == rendered(self@, index as nat, width as nat, name@),
    {
        let name_chars = chars_of(name);
        let mut out = String::new();
        let mut k: usize = 0;
        while k < self.segments.len()
            invariant
                k <= self@.len(),
                self@.len() == self.segments@.len(),
                out@ == rendered(self@.take(k as int), index as nat, width as nat, name@),
                name_chars@ == name@,
            decreases self.segments.len() - k,
        {
            push_segment(&mut out, &self.segments[k], index, width, name_chars.as_slice());
            assert(self@.take(k + 1).drop_last() == self@.take(k as int));
            k += 1;
        }
        assert(self@.take(k as int) == self@);
        out
    }
}

impl TemplateParser {
    pub fn new() -> (r: Self) {
        TemplateParser {  }
    }

    /// Compiles `template`; never fails (text that is no token stays literal).
    pub fn parse(&self, template: &str) -> (r: Template)
        ensures
            r@ == compile(template@),
    {
        let cs = chars_of(template);
        let ghost s = cs@;
        let mut segments: Vec<Segment> = Vec::new();
        let mut left: usize = 0;
        let mut i: usize = 0;
        while i < cs.len()
            invariant
                left <= i <= cs@.len(),
                s == cs@,
                compile(s) == views_of(segments@) + compile_from(s, i as int, left as int),
            decreases cs.len() - i,
        {
            let (len, segment) = scan_token(cs.as_slice(), i);
            if len > 0 {
                let ghost before = views_of(segments@);
                if left < i {
                    segments.push(Segment::Literal(string_of_range(cs.as_slice(), left, i)));
                }
                assert(views_of(segments@) == before + literal_span(s, left as int, i as int));
                let ghost middle = views_of(segments@);
                match segment {
                    Some(seg) => segments.push(seg),
                    None => {},
                }
                assert(views_of(segments@) == middle + option_seq(token_segment(s, i as int)));
                i = i + len;
                left = i;
            } else {
                i += 1;
            }
        }
        let ghost before = views_of(segments@);
        if left < cs.len() {
            segments.push(Segment::Literal(string_of_range(cs.as_slice(), left, cs.len())));
        }
        assert(views_of(segments@) == before + literal_span(s, left as int, s.len() as int));
        Template { segments }
    }
}

} // verus!
