//! Giving each file of a batch its destination path.
use regex::Regex;
use vstd::prelude::*;

use crate::options::Opts;
use crate::path::{file_stem, file_stem_of, replace_stem, with_stem};
use crate::template::{
    compile, decimal, decimal_len, lemma_decimal_len_at_most_20, lemma_decimal_len_monotonic,
    max_width, rendered, rendered_segment, zero_padded, SegmentView, Template, TemplateParser,
};
use crate::text::push_str;

verus! {

/// `regex::Regex`, a compiled pattern: carried through as an opaque value.
#[verifier::external_type_specification]
#[verifier::external_body]
pub struct ExRegex(Regex);

/// `part` is a contiguous piece of `whole`.
pub open spec fn is_substring(part: Seq<char>, whole: Seq<char>) -> bool {
    exists|i: int, j: int| 0 <= i <= j <= whole.len() && #[trigger] whole.subrange(i, j) == part
}

/// Relies on `regex::Regex::captures`: where the pattern matches `text`, the whole
/// match (group 0) and, where it took part in the match, group 1, each a piece of `text`.
#[verifier::external_body]
fn captures_in(re: &Regex, text: &str) -> (r: Option<(String, Option<String>)>)
    ensures
        match r {
            Some((whole, group)) => is_substring(whole@, text@) && match group {
                Some(g) => is_substring(g@, text@),
                None => true,
            },
            None => true,
        },
{
    match re.captures(text) {
        Some(caps) => Some((caps[0].to_string(), caps.get(1).map(|m| m.as_str().to_string()))),
        None => None,
    }
}

/// The part of `text` that filename segments use, given what a pattern found in it:
/// the first capture group where one took part in the match, else the whole match,
/// and all of `text` where the pattern did not match.
pub fn pick_capture(text: &str, found: Option<(String, Option<String>)>) -> (r: String)
    ensures
        r@ == match found {
            None => text@,
            Some((whole, None)) => whole@,
            Some((_, Some(group))) => group@,
        },
{
    match found {
        None => {
            let mut r = String::new();
            push_str(&mut r, text);
            r
        },
        Some((whole, None)) => whole,
        Some((_, Some(group))) => group,
    }
}

/// The width known for the batch, 0 where it is not.
pub open spec fn width_or_zero(width: Option<usize>) -> nat {
    match width {
        Some(w) => w as nat,
        None => 0,
    }
}

/// The last running index of a batch of `count` files that starts at `start`.
pub open spec fn last_index(start: nat, count: nat) -> nat {
    if count == 0 {
        start
    } else {
        (start + count - 1) as nat
    }
}

/// The number of digits that the batch's numbers are padded to: enough for its last
/// index (taken as `usize::MAX` where it is larger), where the batch size is known.
pub open spec fn batch_width(start: u32, count: Option<usize>) -> Option<usize> {
    match count {
        None => None,
        Some(c) => {
            let last = last_index(start as nat, c as nat);
            let last = if last > usize::MAX {
                usize::MAX as nat
            } else {
                last
            };
            Some(decimal(last).len() as usize)
        },
    }
}

/// The destination of `path`, for running index `index`, batch width `width`, and
/// `name` as the text that filename segments use.
pub open spec fn destination(
    template: Seq<SegmentView>,
    index: nat,
    width: Option<usize>,
    path: Seq<char>,
    name: Seq<char>,
) -> Seq<char> {
    with_stem(path, rendered(template, index, width_or_zero(width), name))
}

/// The number of decimal digits of `count`, where it is given.
pub fn get_width(count: Option<usize>) -> (r: Option<usize>)
    ensures
        match count {
            None => r is None,
            Some(c) => r == Some(decimal(c as nat).len() as usize),
        },
{
    match count {
        None => None,
        Some(c) => Some(decimal_len(c as u64)),
    }
}

/// In a batch of `count` files numbered from `start`, a numeric segment of width `w`
/// prints each index of the batch zero-padded to exactly the larger of `w` and the
/// number of digits of the batch's last index.
pub proof fn lemma_batch_indices_share_width(
    start: u32,
    count: usize,
    w: usize,
    index: nat,
    name: Seq<char>,
)
    requires
        count >= 1,
        start <= index <= start + count - 1,
        start + count - 1 <= u32::MAX,
    ensures
        ({
            let digits = decimal((start + count - 1) as nat).len();
            let text = rendered_segment(
                SegmentView::Numeric(w),
                index,
                width_or_zero(batch_width(start, Some(count))),
                name,
            );
            &&& text == zero_padded(index, max_width(w as nat, digits))
            &&& text.len() == max_width(w as nat, digits)
        }),
{
    let last = (start + count - 1) as nat;
    lemma_decimal_len_monotonic(index, last);
    lemma_decimal_len_at_most_20(last as u64);
    assert(batch_width(start, Some(count)) == Some(decimal(last).len() as usize));
}

/// The width of a batch of `count` files numbered from `start`.
fn batch_width_of(start: u32, count: Option<usize>) -> (r: Option<usize>)
    ensures
        r == batch_width(start, count),
{
    match count {
        None => None,
        Some(c) => {
            let last: usize = if c == 0 {
                start as usize
            } else {
                (start as usize).saturating_add(c - 1)
            };
            get_width(Some(last))
        },
    }
}

/// Renders destinations for the files of a batch, one after the other, counting up
/// from the start index.
#[derive(Debug)]
pub struct Renamer {
    idx: u32,
    width: Option<usize>,
    template: Template,
    pattern: Option<Regex>,
}

impl Renamer {
    /// The running index of the next file.
    pub closed spec fn index(&self) -> u32 {
        self.idx
    }

    /// The batch width, where the batch size is known.
    pub closed spec fn width(&self) -> Option<usize> {
        self.width
    }

    pub closed spec fn template(&self) -> Seq<SegmentView> {
        self.template@
    }

    pub closed spec fn pattern(&self) -> Option<Regex> {
        self.pattern
    }

    /// A renamer for a batch of `count` files (where known) that compiles the template
    /// of `options` and takes its pattern out of it.
    pub fn new(options: &mut Opts, count: Option<usize>) -> (r: Self)
        ensures
            r.index() == old(options).start,
            r.width() == batch_width(old(options).start, count),
            r.template() == compile(old(options).template@),
            r.pattern() == old(options).pattern,
            final(options).pattern is None,
            final(options).template == old(options).template,
            final(options).paths == old(options).paths,
            final(options).start == old(options).start,
            final(options).execution == old(options).execution,
            final(options).sort == old(options).sort,
    {
        let parser = TemplateParser::new();
        Self {
            idx: options.start,
            width: batch_width_of(options.start, count),
            template: parser.parse(options.template.as_str()),
            pattern: options.pattern.take(),
        }
    }

    /// A renamer for a batch of `count` files (where known) numbered from `start`.
    pub fn from_parts(
        template: Template,
        start: u32,
        count: Option<usize>,
        pattern: Option<Regex>,
    ) -> (r: Self)
        ensures
            r.index() == start,
            r.width() == batch_width(start, count),
            r.template() == template@,
            r.pattern() == pattern,
    {
        Self { idx: start, width: batch_width_of(start, count), template, pattern }
    }

    /// The destination of `path`: the same directory and extension, and the stem that
    /// the template renders for the current index. The index then moves on by one.
    pub fn rename(&mut self, path: &str) -> (r: String)
        requires
            old(self).index() < u32::MAX,
        ensures
            final(self).index() == old(self).index() + 1,
            final(self).width() == old(self).width(),
            final(self).template() == old(self).template(),
            final(self).pattern() == old(self).pattern(),
            old(self).pattern() is None ==> r@ == destination(
                old(self).template(),
                old(self).index() as nat,
                old(self).width(),
                path@,
                file_stem(path@),
            ),
            exists|name: Seq<char>|
                is_substring(name, file_stem(path@)) && r@ == destination(
                    old(self).template(),
                    old(self).index() as nat,
                    old(self).width(),
                    path@,
                    name,
                ),
    {
        let stem = self.context(path).to_string();
        let result = replace_stem(path, stem.as_str());
        self.idx += 1;
        result
    }

    fn context<'p>(&'p self, path: &'p str) -> (r: RenameContext<'p>)
        ensures
            r.idx == self.idx,
            r.width == self.width,
            r.path == path,
            r.template == &self.template,
            r.pattern == match &self.pattern {
                Some(re) => Some(re),
                None => None::<&Regex>,
            },
    {
        RenameContext {
            idx: self.idx,
            width: self.width,
            path,
            template: &self.template,
            pattern: self.pattern.as_ref(),
        }
    }
}

/// Everything that the stem of one destination depends on.
pub struct RenameContext<'a> {
    idx: u32,
    width: Option<usize>,
    path: &'a str,
    template: &'a Template,
    pattern: Option<&'a Regex>,
}

impl<'a> RenameContext<'a> {
    /// The stem of the source file.
    pub closed spec fn source_stem(&self) -> Seq<char> {
        file_stem(self.path@)
    }

    pub closed spec fn has_pattern(&self) -> bool {
        self.pattern is Some
    }

    /// The stem rendered with `name` in the filename segments.
    pub closed spec fn rendered_with(&self, name: Seq<char>) -> Seq<char> {
        rendered(self.template@, self.idx as nat, width_or_zero(self.width), name)
    }

    /// The rendered stem: the template for this index, with the (extracted) file stem
    /// in its filename segments.
    pub fn to_string(&self) -> (r: String)
        ensures
            !self.has_pattern() ==> r@ == self.rendered_with(self.source_stem()),
            exists|name: Seq<char>|
                is_substring(name, self.source_stem()) && r@ == self.rendered_with(name),
    {
        let stem = file_stem_of(self.path);
        let name = self.extract_name(stem.as_str());
        let width = match self.width {
            Some(w) => w,
            None => 0,
        };
        let r = self.template.render(self.idx, width, name.as_str());
        assert(is_substring(name@, self.source_stem()) && r@ == self.rendered_with(name@));
        r
    }

    /// The part of `text` that filename segments use: all of it without a pattern.
    fn extract_name(&self, text: &str) -> (r: String)
        ensures
            self.pattern is None ==> r@ == text@,
            is_substring(r@, text@),
    {
        assert(text@.subrange(0, text@.len() as int) == text@);
        match self.pattern {
            None => pick_capture(text, None),
            Some(re) => pick_capture(text, captures_in(re, text)),
        }
    }
}

} // verus!
