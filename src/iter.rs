//! Choosing an order for a batch of operations in which no operation overwrites a
//! file that a later one still has to read.
use vstd::prelude::*;

use vstd::utf8::encode_utf8;

use crate::text::{push_str, same_text};

verus! {

/// A source path and a destination path, as characters.
pub type PathPair = (Seq<char>, Seq<char>);

/// The operations `from[k] -> to[k]`, in index order.
pub open spec fn pairs(from: Seq<&str>, to: Seq<&str>) -> Seq<PathPair> {
    Seq::new(from.len(), |k: int| (from[k]@, to[k]@))
}

/// The paths that `paths` holds.
pub open spec fn path_set(paths: Seq<&str>) -> Set<Seq<char>> {
    Set::new(|p: Seq<char>| exists|i: int| 0 <= i < paths.len() && paths[i]@ == p)
}

/// Running `ops[k]` would overwrite a path of `sources` that no operation up to and
/// including `ops[k]` has moved away yet.
pub open spec fn conflicts_at(sources: Set<Seq<char>>, ops: Seq<PathPair>, k: int) -> bool {
    &&& sources.contains(ops[k].1)
    &&& forall|j: int| 0 <= j <= k ==> ops[j].0 != ops[k].1
}

/// Running `ops` in order never overwrites a source that is still needed.
pub open spec fn is_safe(sources: Set<Seq<char>>, ops: Seq<PathPair>) -> bool {
    forall|k: int| 0 <= k < ops.len() ==> !conflicts_at(sources, ops, k)
}

/// `ops[k]` is the first operation of `ops` that would overwrite a needed source.
pub open spec fn is_first_conflict(sources: Set<Seq<char>>, ops: Seq<PathPair>, k: int) -> bool {
    &&& 0 <= k < ops.len()
    &&& conflicts_at(sources, ops, k)
    &&& forall|j: int| 0 <= j < k ==> !conflicts_at(sources, ops, j)
}

/// `c` reports the first operation of `ops` that would overwrite a needed source.
pub open spec fn reports_first_conflict(
    sources: Set<Seq<char>>,
    ops: Seq<PathPair>,
    c: Conflict,
) -> bool {
    exists|k: int|
        is_first_conflict(sources, ops, k) && c.from@ == ops[k].0 && c.to@ == ops[k].1
}

proof fn lemma_path_set_push<'a>(paths: Seq<&'a str>, p: &'a str)
    ensures
        path_set(paths.push(p)) == path_set(paths).insert(p@),
{
    let pushed = paths.push(p);
    assert forall|q: Seq<char>| #[trigger]
        path_set(pushed).contains(q) implies path_set(paths).insert(p@).contains(q) by {
        let i = choose|i: int| 0 <= i < pushed.len() && #[trigger] pushed[i]@ == q;
        if i < paths.len() {
            assert(pushed[i] == paths[i]);
        }
    }
    assert forall|q: Seq<char>| #[trigger]
        path_set(paths).insert(p@).contains(q) implies path_set(pushed).contains(q) by {
        if q == p@ {
            assert(pushed[paths.len() as int] == p);
        } else {
            let i = choose|i: int| 0 <= i < paths.len() && #[trigger] paths[i]@ == q;
            assert(pushed[i] == paths[i]);
        }
    }
    assert(path_set(pushed) =~= path_set(paths).insert(p@));
}

/// The guarantee of a safe order: where the sources of a batch are distinct, no
/// operation of an order accepted as safe (index order or its reverse) writes to a path
/// that a later operation of that order still has to read.
pub proof fn lemma_safe_order_keeps_later_sources(
    from: Seq<&str>,
    to: Seq<&str>,
    ops: Seq<PathPair>,
    k: int,
    m: int,
)
    requires
        from.len() == to.len(),
        forall|a: int, b: int| 0 <= a < b < from.len() ==> from[a]@ != from[b]@,
        ops == pairs(from, to) || ops == pairs(from, to).reverse(),
        is_safe(path_set(from), ops),
        0 <= k < m < ops.len(),
    ensures
        ops[k].1 != ops[m].0,
{
    let n = from.len() as int;
    // The source of the operation at position `j` of `ops`.
    let at = |j: int|
        if ops == pairs(from, to) {
            j
        } else {
            n - 1 - j
        };
    assert forall|j: int| 0 <= j < n implies ops[j].0 == #[trigger] from[at(j)]@ by {}
    if ops[k].1 == ops[m].0 {
        assert(path_set(from).contains(ops[k].1)) by {
            assert(from[at(m)]@ == ops[m].0);
        }
        assert(!conflicts_at(path_set(from), ops, k));
        let j = choose|j: int| 0 <= j <= k && ops[j].0 == ops[k].1;
        assert(from[at(j)]@ == from[at(m)]@);
        if at(j) < at(m) {
            assert(from[at(j)]@ != from[at(m)]@);
        } else {
            assert(from[at(m)]@ != from[at(j)]@);
        }
    }
}

/// One proposed move or copy.
pub struct Operation<'a> {
    pub from: &'a str,
    pub to: &'a str,
}

impl<'a> View for Operation<'a> {
    type V = PathPair;

    open spec fn view(&self) -> PathPair {
        (self.from@, self.to@)
    }
}

impl<'a> Operation<'a> {
    pub fn into_conflict(self) -> (r: Conflict)
        ensures
            r.from@ == self.from@,
            r.to@ == self.to@,
    {
        let mut from = String::new();
        push_str(&mut from, self.from);
        let mut to = String::new();
        push_str(&mut to, self.to);
        Conflict { from, to }
    }
}

/// An operation that would overwrite a source still needed by a later operation.
#[derive(Clone, Debug)]
pub struct Conflict {
    pub from: String,
    pub to: String,
}

/// The text that reports conflict `c`.
pub open spec fn conflict_report(c: Conflict) -> Seq<char> {
    "move conflict\n  "@ + c.from@ + "\n  "@ + c.to@ + "\n"@
}

impl Conflict {
    /// The report for this conflict, as shown to the user.
    pub fn to_string(&self) -> (r: String)
        ensures
            r@ == conflict_report(*self),
    {
        let mut out = String::new();
        push_str(&mut out, "move conflict\n  ");
        push_str(&mut out, self.from.as_str());
        push_str(&mut out, "\n  ");
        push_str(&mut out, self.to.as_str());
        push_str(&mut out, "\n");
        out
    }
}

/// Neither order is safe: the first conflict of each.
#[derive(Clone, Debug)]
pub struct MultimodeConflict {
    pub forward: Conflict,
    pub reverse: Conflict,
}

impl MultimodeConflict {
    pub fn new(forward: Conflict, reverse: Conflict) -> (r: Self)
        ensures
            r.forward == forward,
            r.reverse == reverse,
    {
        Self { forward, reverse }
    }

    /// The report for both conflicts, as shown to the user.
    pub fn to_string(&self) -> (r: String)
        ensures
            r@ == conflict_report(self.forward) + "\n"@ + conflict_report(self.reverse)
                + "\ntoo many conflicts\n"@,
    {
        let mut out = self.forward.to_string();
        push_str(&mut out, "\n");
        let reverse = self.reverse.to_string();
        push_str(&mut out, reverse.as_str());
        push_str(&mut out, "\ntoo many conflicts\n");
        out
    }
}

/// Operations handed out one at a time, in a fixed order.
pub trait Iteration<'a> {
    spec fn wf(&self) -> bool;

    /// The operations still to come, in order.
    spec fn remaining(&self) -> Seq<PathPair>;

    fn next_operation(&mut self) -> (r: Option<Operation<'a>>)
        requires
            old(self).wf(),
        ensures
            final(self).wf(),
            old(self).remaining().len() == 0 ==> r is None && final(self).remaining() == old(
                self,
            ).remaining(),
            old(self).remaining().len() > 0 ==> r is Some && r->0@ == old(self).remaining()[0]
                && final(self).remaining() == old(self).remaining().drop_first(),
    ;
}

/// The operations `from[k] -> to[k]` for `k` = 0, 1, ..., n - 1.
pub struct Forward<'a> {
    idx: usize,
    from: &'a [&'a str],
    to: &'a [&'a str],
}

impl<'a> Forward<'a> {
    /// The whole order, from the first operation.
    pub closed spec fn order(&self) -> Seq<PathPair> {
        pairs(self.from@, self.to@)
    }

    pub fn new(from: &'a [&'a str], to: &'a [&'a str]) -> (r: Self)
        requires
            from@.len() == to@.len(),
        ensures
            r.wf(),
            r.order() == pairs(from@, to@),
            r.remaining() == r.order(),
    {
        let r = Self { idx: 0, from, to };
        assert(r.remaining() =~= r.order());
        r
    }

    /// Starts the order over.
    pub fn reset(&mut self)
        requires
            old(self).wf(),
        ensures
            final(self).wf(),
            final(self).order() == old(self).order(),
            final(self).remaining() == old(self).order(),
    {
        self.idx = 0;
        assert(self.remaining() =~= self.order());
    }

    /// The number of operations still to come.
    pub fn count(self) -> (r: usize)
        requires
            self.wf(),
        ensures
            r == self.remaining().len(),
    {
        self.from.len() - self.idx
    }
}

impl<'a> Iteration<'a> for Forward<'a> {
    closed spec fn wf(&self) -> bool {
        self.from@.len() == self.to@.len() && self.idx <= self.from@.len()
    }

    closed spec fn remaining(&self) -> Seq<PathPair> {
        pairs(self.from@, self.to@).skip(self.idx as int)
    }

    fn next_operation(&mut self) -> (r: Option<Operation<'a>>) {
        if self.idx >= self.from.len() {
            return None;
        }
        let operation = Operation { from: self.from[self.idx], to: self.to[self.idx] };
        let ghost before = self.remaining();
        self.idx += 1;
        assert(self.remaining() =~= before.drop_first());
        Some(operation)
    }
}

/// The operations `from[k] -> to[k]` for `k` = n - 1, n - 2, ..., 0.
pub struct Reverse<'a> {
    idx: usize,
    from: &'a [&'a str],
    to: &'a [&'a str],
}

impl<'a> Reverse<'a> {
    /// The whole order, from the first operation.
    pub closed spec fn order(&self) -> Seq<PathPair> {
        pairs(self.from@, self.to@).reverse()
    }

    pub fn new(from: &'a [&'a str], to: &'a [&'a str]) -> (r: Self)
        requires
            from@.len() == to@.len(),
        ensures
            r.wf(),
            r.order() == pairs(from@, to@).reverse(),
            r.remaining() == r.order(),
    {
        let r = Self { idx: from.len(), from, to };
        assert(r.remaining() =~= r.order());
        r
    }

    /// Starts the order over.
    pub fn reset(&mut self)
        requires
            old(self).wf(),
        ensures
            final(self).wf(),
            final(self).order() == old(self).order(),
            final(self).remaining() == old(self).order(),
    {
        self.idx = self.from.len();
        assert(self.remaining() =~= self.order());
    }

    /// The number of operations still to come.
    pub fn count(self) -> (r: usize)
        requires
            self.wf(),
        ensures
            r == self.remaining().len(),
    {
        self.idx
    }
}

impl<'a> Iteration<'a> for Reverse<'a> {
    closed spec fn wf(&self) -> bool {
        self.from@.len() == self.to@.len() && self.idx <= self.from@.len()
    }

    closed spec fn remaining(&self) -> Seq<PathPair> {
        pairs(self.from@, self.to@).take(self.idx as int).reverse()
    }

    fn next_operation(&mut self) -> (r: Option<Operation<'a>>) {
        if self.idx == 0 {
            return None;
        }
        let operation = Operation { from: self.from[self.idx - 1], to: self.to[self.idx - 1] };
        let ghost before = self.remaining();
        self.idx -= 1;
        assert(self.remaining() =~= before.drop_first());
        Some(operation)
    }
}

/// The source paths of a batch, each marked as still pending (its file has not been
/// moved away yet) or not.
pub struct DataTracker<'a> {
    paths: Vec<&'a str>,
    pending: Vec<bool>,
}

impl<'a> DataTracker<'a> {
    /// Each path is held once, with one flag.
    pub closed spec fn wf(&self) -> bool {
        &&& self.paths@.len() == self.pending@.len()
        &&& forall|i: int, j: int|
            0 <= i < j < self.paths@.len() ==> self.paths@[i]@ != self.paths@[j]@
    }

    /// The source paths that this tracker follows.
    pub closed spec fn sources(&self) -> Set<Seq<char>> {
        path_set(self.paths@)
    }

    /// The source paths still pending.
    pub closed spec fn pending(&self) -> Set<Seq<char>> {
        Set::new(
            |p: Seq<char>|
                exists|i: int| 0 <= i < self.paths@.len() && self.paths@[i]@ == p && self.pending@[i],
        )
    }

    pub fn new(paths: &'a [&'a str]) -> (r: Self)
        ensures
            r.wf(),
            r.sources() == path_set(paths@),
            r.pending() == r.sources(),
    {
        let mut r = DataTracker { paths: Vec::new(), pending: Vec::new() };
        let mut k: usize = 0;
        while k < paths.len()
            invariant
                k <= paths@.len(),
                r.wf(),
                r.sources() == path_set(paths@.take(k as int)),
                forall|i: int| 0 <= i < r.pending@.len() ==> r.pending@[i],
            decreases paths.len() - k,
        {
            let p = paths[k];
            proof {
                assert(paths@.take(k + 1) == paths@.take(k as int).push(p));
                lemma_path_set_push(paths@.take(k as int), p);
                lemma_path_set_push(r.paths@, p);
            }
            if r.position(p).is_none() {
                r.paths.push(p);
                r.pending.push(true);
            } else {
                assert(path_set(paths@.take(k as int)).insert(p@) =~= path_set(
                    paths@.take(k as int),
                ));
            }
            k += 1;
        }
        assert(paths@.take(k as int) == paths@);
        proof {
            r.lemma_all_flags_set_means_all_pending();
        }
        r
    }

    /// Where `p` is held, if it is.
    fn position(&self, p: &str) -> (r: Option<usize>)
        requires
            self.wf(),
        ensures
            match r {
                Some(i) => i < self.paths@.len() && self.paths@[i as int]@ == p@,
                None => !self.sources().contains(p@),
            },
    {
        let mut i: usize = 0;
        while i < self.paths.len()
            invariant
                i <= self.paths@.len(),
                forall|j: int| 0 <= j < i ==> self.paths@[j]@ != p@,
            decreases self.paths.len() - i,
        {
            if same_text(self.paths[i], p) {
                return Some(i);
            }
            i += 1;
        }
        None
    }

    /// Marks every source as pending again.
    pub fn reset(&mut self)
        requires
            old(self).wf(),
        ensures
            final(self).wf(),
            final(self).sources() == old(self).sources(),
            final(self).pending() == old(self).sources(),
    {
        let mut i: usize = 0;
        while i < self.pending.len()
            invariant
                i <= self.pending@.len(),
                self.paths == old(self).paths,
                self.wf(),
                forall|j: int| 0 <= j < i ==> self.pending@[j],
            decreases self.pending.len() - i,
        {
            self.pending.set(i, true);
            i += 1;
        }
        proof {
            self.lemma_all_flags_set_means_all_pending();
        }
    }

    proof fn lemma_all_flags_set_means_all_pending(&self)
        requires
            self.wf(),
            forall|i: int| 0 <= i < self.pending@.len() ==> self.pending@[i],
        ensures
            self.pending() == self.sources(),
    {
        assert forall|q: Seq<char>| #[trigger]
            self.sources().contains(q) implies self.pending().contains(q) by {
            let i = choose|i: int| 0 <= i < self.paths@.len() && #[trigger] self.paths@[i]@ == q;
            assert(self.pending@[i]);
        }
        assert(self.pending() =~= self.sources());
    }

    /// The pending set holds a path exactly where that path's flag is set.
    proof fn lemma_pending_set_is_flags(&self)
        requires
            self.wf(),
        ensures
            forall|i: int|
                0 <= i < self.paths@.len() ==> (self.pending().contains(self.paths@[i]@)
                    <==> #[trigger] self.pending@[i]),
    {
        assert forall|i: int| 0 <= i < self.paths@.len() implies (self.pending().contains(
            self.paths@[i]@,
        ) <==> #[trigger] self.pending@[i]) by {
            if self.pending().contains(self.paths@[i]@) {
                let j = choose|j: int|
                    0 <= j < self.paths@.len() && #[trigger] self.paths@[j]@ == self.paths@[i]@
                        && self.pending@[j];
                assert(i == j);
            }
        }
    }

    /// Runs `iteration` as a dry run from a state where every source is pending: each
    /// operation first moves its source away, then must not land on a pending source.
    /// Returns the first operation that would, if any.
    pub fn check_iteration<I: Iteration<'a>>(&mut self, iteration: I) -> (r: Result<(), Conflict>)
        requires
            old(self).wf(),
            iteration.wf(),
        ensures
            final(self).wf(),
            final(self).sources() == old(self).sources(),
            r is Ok <==> is_safe(old(self).sources(), iteration.remaining()),
            r matches Err(c) ==> reports_first_conflict(old(self).sources(), iteration.remaining(), c),
    {
        self.reset();
        proof {
            self.lemma_pending_set_is_flags();
        }
        let ghost sources = self.sources();
        let ghost paths = self.paths@;
        let ghost ops = iteration.remaining();
        let ghost mut done: int = 0;
        let mut it = iteration;
        loop
            invariant
                self.wf(),
                self.paths@ == paths,
                self.sources() == sources,
                sources == old(self).sources(),
                ops == iteration.remaining(),
                it.wf(),
                0 <= done <= ops.len(),
                it.remaining() == ops.skip(done),
                forall|i: int|
                    0 <= i < self.pending@.len() ==> (#[trigger] self.pending@[i] <==> forall|j: int|
                        0 <= j < done ==> ops[j].0 != self.paths@[i]@),
                forall|k: int| 0 <= k < done ==> !conflicts_at(sources, ops, k),
            decreases it.remaining().len(),
        {
            match it.next_operation() {
                None => {
                    assert(done == ops.len());
                    return Ok(());
                },
                Some(op) => {
                    assert(op@ == ops[done]);
                    let ghost pending_before = self.pending@;
                    match self.position(op.from) {
                        Some(f) => {
                            self.pending.set(f, false);
                        },
                        None => {},
                    }
                    assert forall|i: int| 0 <= i < self.pending@.len() implies (
                    #[trigger] self.pending@[i] <==> forall|j: int|
                        0 <= j <= done ==> ops[j].0 != self.paths@[i]@) by {
                        if self.paths@[i]@ == ops[done].0 {
                            assert(!self.pending@[i]);
                        } else {
                            assert(self.pending@[i] == pending_before[i]);
                        }
                    }
                    let is_conflict = match self.position(op.to) {
                        Some(t) => self.pending[t],
                        None => false,
                    };
                    if is_conflict {
                        assert(is_first_conflict(sources, ops, done));
                        return Err(op.into_conflict());
                    }
                    assert(!conflicts_at(sources, ops, done));
                    proof {
                        done = done + 1;
                        assert(it.remaining() =~= ops.skip(done));
                    }
                },
            }
        }
    }
}

/// The order chosen for a batch.
pub enum Schedule<'a> {
    Forward(Forward<'a>),
    Reverse(Reverse<'a>),
}

impl<'a> Iteration<'a> for Schedule<'a> {
    open spec fn wf(&self) -> bool {
        match self {
            Schedule::Forward(it) => it.wf(),
            Schedule::Reverse(it) => it.wf(),
        }
    }

    open spec fn remaining(&self) -> Seq<PathPair> {
        match self {
            Schedule::Forward(it) => it.remaining(),
            Schedule::Reverse(it) => it.remaining(),
        }
    }

    fn next_operation(&mut self) -> (r: Option<Operation<'a>>) {
        match self {
            Schedule::Forward(it) => it.next_operation(),
            Schedule::Reverse(it) => it.next_operation(),
        }
    }
}

/// Picks the order in which to run `from[k] -> to[k]`: index order where that is safe,
/// else reverse index order where that is safe, else neither, with the first conflict
/// of each.
pub fn select_iteration_mode<'a>(from: &'a [&'a str], to: &'a [&'a str]) -> (r: Result<
    Schedule<'a>,
    MultimodeConflict,
>)
    requires
        from@.len() == to@.len(),
    ensures
        ({
            let sources = path_set(from@);
            let forward = pairs(from@, to@);
            let reverse = pairs(from@, to@).reverse();
            match r {
                Ok(Schedule::Forward(it)) => {
                    &&& is_safe(sources, forward)
                    &&& it.wf()
                    &&& it.remaining() == forward
                },
                Ok(Schedule::Reverse(it)) => {
                    &&& !is_safe(sources, forward)
                    &&& is_safe(sources, reverse)
                    &&& it.wf()
                    &&& it.remaining() == reverse
                },
                Err(e) => {
                    &&& !is_safe(sources, forward)
                    &&& !is_safe(sources, reverse)
                    &&& reports_first_conflict(sources, forward, e.forward)
                    &&& reports_first_conflict(sources, reverse, e.reverse)
                },
            }
        }),
{
    let mut data = DataTracker::new(from);
    let forward = data.check_iteration(Forward::new(from, to));
    let forward_conflict = match forward {
        Ok(()) => {
            return Ok(Schedule::Forward(Forward::new(from, to)));
        },
        Err(c) => c,
    };
    let reverse = data.check_iteration(Reverse::new(from, to));
    let reverse_conflict = match reverse {
        Ok(()) => {
            return Ok(Schedule::Reverse(Reverse::new(from, to)));
        },
        Err(c) => c,
    };
    Err(MultimodeConflict::new(forward_conflict, reverse_conflict))
}

/// A trace line longer than this, in bytes, is split in two.
pub const MAX_FORMATTED_LEN: usize = 80;

/// The number of bytes that `s` takes in UTF-8.
pub open spec fn byte_len(s: Seq<char>) -> nat {
    encode_utf8(s).len()
}

/// The trace line for one operation: `from -> to`, or, where that is longer than
/// `MAX_FORMATTED_LEN` bytes, `from` and then ` -> to` on a line of its own.
pub open spec fn trace_line(from: Seq<char>, to: Seq<char>) -> Seq<char> {
    if byte_len(from) + 4 + byte_len(to) > MAX_FORMATTED_LEN {
        from + "\n -> "@ + to + "\n"@
    } else {
        from + " -> "@ + to + "\n"@
    }
}

/// The trace line printed for `op`.
pub fn format_op(op: &Operation) -> (r: String)
    ensures
        r@ == trace_line(op.from@, op.to@),
{
    let len = op.from.as_bytes().len() as u128 + 4 + op.to.as_bytes().len() as u128;
    let mut out = String::new();
    push_str(&mut out, op.from);
    if len > MAX_FORMATTED_LEN as u128 {
        push_str(&mut out, "\n -> ");
    } else {
        push_str(&mut out, " -> ");
    }
    push_str(&mut out, op.to);
    push_str(&mut out, "\n");
    assert(out@ == trace_line(op.from@, op.to@));
    out
}

} // verus!
