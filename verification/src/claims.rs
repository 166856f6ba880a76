//! The claims tracker: which byte ranges are being validated, and which are
//! done.
//!
//! Two collections are kept apart on purpose. The stack of open ranges is the
//! chain of sub-objects from the root down to the one at hand; a range that
//! runs into it closes a cycle of references. The set of committed ranges
//! holds every sub-object that was validated to its end; a range that runs
//! into it is claimed by two owners.
//!
//! The stack is short and is searched from end to end. The committed ranges
//! are many, so those that hold a byte are kept in the order of their
//! position, which no two of them share, and are searched by halving.

use vstd::prelude::*;
use crate::error::ValidationError;
use crate::span::Span;

verus! {

/// Some committed range has a byte in common with `span`.
pub open spec fn hits_committed(committed: Set<Span>, span: Span) -> bool {
    exists|c: Span| committed.contains(c) && #[trigger] c.intersects(span)
}

/// Some open range has a byte in common with `span`.
pub open spec fn hits_ancestor(ancestors: Seq<Span>, span: Span) -> bool {
    exists|k: int| 0 <= k < ancestors.len() && #[trigger] ancestors[k].intersects(span)
}

/// What forbids claiming `span`: committed ranges are looked at first, open
/// ranges second.
pub open spec fn claim_fault(ancestors: Seq<Span>, committed: Set<Span>, span: Span) -> Option<
    ValidationError,
> {
    if hits_committed(committed, span) {
        Some(ValidationError::OverlappingClaim)
    } else if hits_ancestor(ancestors, span) {
        Some(ValidationError::CyclicClaim)
    } else {
        None
    }
}

/// What `enter` answers for `span` in an archive of `len` bytes: a range that
/// leaves the archive is turned away before any claim is looked at.
pub open spec fn enter_fault(len: int, ancestors: Seq<Span>, committed: Set<Span>, span: Span)
    -> Option<ValidationError> {
    if !span.within(len) {
        Some(ValidationError::OutOfBounds)
    } else {
        claim_fault(ancestors, committed, span)
    }
}

/// The invariant of the tracker's state over an archive of `len` bytes: no
/// claim leaves the archive, and no two claims share a byte, whether open or
/// committed.
pub open spec fn claims_sound(len: int, ancestors: Seq<Span>, committed: Set<Span>) -> bool {
    &&& forall|c: Span| #[trigger] committed.contains(c) ==> c.within(len)
    &&& forall|k: int| 0 <= k < ancestors.len() ==> (#[trigger] ancestors[k]).within(len)
    &&& forall|c: Span, d: Span|
        #![trigger committed.contains(c), committed.contains(d)]
        committed.contains(c) && committed.contains(d) && c != d ==> !c.intersects(d)
    &&& forall|j: int, k: int|
        #![trigger ancestors[j], ancestors[k]]
        0 <= j < k < ancestors.len() ==> !ancestors[j].intersects(ancestors[k])
    &&& forall|k: int, c: Span|
        #![trigger ancestors[k], committed.contains(c)]
        0 <= k < ancestors.len() && committed.contains(c) ==> !ancestors[k].intersects(c)
}

/// Opening a range that lies in the archive and that no claim forbids keeps
/// the invariant.
pub proof fn lemma_open_keeps_sound(
    len: int,
    ancestors: Seq<Span>,
    committed: Set<Span>,
    span: Span,
)
    requires
        claims_sound(len, ancestors, committed),
        span.within(len),
        claim_fault(ancestors, committed, span) is None,
    ensures
        claims_sound(len, ancestors.push(span), committed),
{
    let wider = ancestors.push(span);
    assert forall|j: int, k: int| 0 <= j < k < wider.len() implies !wider[j].intersects(
        wider[k],
    ) by {
        if k == ancestors.len() {
            assert(!ancestors[j].intersects(span));
        } else {
            assert(!ancestors[j].intersects(ancestors[k]));
        }
    }
    assert forall|k: int, c: Span|
        0 <= k < wider.len() && committed.contains(c) implies !wider[k].intersects(c) by {
        if k == ancestors.len() {
            assert(!c.intersects(span));
        } else {
            assert(!ancestors[k].intersects(c));
        }
    }
}

/// Closing the innermost open range and committing it keeps the invariant.
pub proof fn lemma_commit_keeps_sound(
    len: int,
    ancestors: Seq<Span>,
    committed: Set<Span>,
    span: Span,
)
    requires
        claims_sound(len, ancestors.push(span), committed),
    ensures
        claims_sound(len, ancestors, committed.insert(span)),
{
    let wider = ancestors.push(span);
    let top = ancestors.len() as int;
    let after = committed.insert(span);
    assert(wider[top] == span);
    assert forall|c: Span| after.contains(c) implies c.within(len) by {
        if c == span {
            assert(wider[top].within(len));
        }
    }
    assert forall|k: int| 0 <= k < ancestors.len() implies (#[trigger] ancestors[k]).within(
        len,
    ) by {
        assert(wider[k].within(len));
    }
    assert forall|c: Span, d: Span|
        after.contains(c) && after.contains(d) && c != d implies !c.intersects(d) by {
        if c == span {
            assert(!wider[top].intersects(d));
        } else if d == span {
            assert(!wider[top].intersects(c));
        }
    }
    assert forall|j: int, k: int| 0 <= j < k < ancestors.len() implies !ancestors[j].intersects(
        ancestors[k],
    ) by {
        assert(!wider[j].intersects(wider[k]));
    }
    assert forall|k: int, c: Span|
        0 <= k < ancestors.len() && after.contains(c) implies !ancestors[k].intersects(c) by {
        if c == span {
            assert(!wider[k].intersects(wider[top]));
        } else {
            assert(!wider[k].intersects(c));
        }
    }
}

/// The receipt for a range that `enter` opened. It is handed back to `exit`.
#[derive(Debug)]
pub struct ClaimGuard {
    depth: usize,
    span: Span,
}

impl ClaimGuard {
    /// The number of ranges that were open when this one was entered.
    pub closed spec fn depth(self) -> nat {
        self.depth as nat
    }

    /// The range that was entered.
    pub closed spec fn span(self) -> Span {
        self.span
    }

    /// The range that was entered.
    pub fn claimed(&self) -> (s: Span)
        ensures
            s == self.span(),
    {
        self.span
    }
}

/// The state of one validation: the archive, the stack of open ranges and
/// the set of committed ranges.
pub struct ArchiveContext<'a> {
    bytes: &'a [u8],
    ancestors: Vec<Span>,
    /// The committed ranges that hold a byte, in the order of their position.
    committed: Vec<Span>,
    /// The committed ranges that hold none. They stand in no one's way and
    /// take no room.
    vacant: Ghost<Set<Span>>,
}

/// Each range holds a byte, and each ends where the next begins or before.
pub open spec fn in_order(spans: Seq<Span>) -> bool {
    &&& forall|i: int| 0 <= i < spans.len() ==> (#[trigger] spans[i]).start < spans[i].end
    &&& forall|i: int, j: int|
        #![trigger spans[i], spans[j]]
        0 <= i < j < spans.len() ==> spans[i].end <= spans[j].start
}

/// Putting a range among ranges in order, behind those that end before it
/// begins and before those that begin behind its end, keeps the order and
/// adds the range to the set.
pub proof fn lemma_insert_in_order(spans: Seq<Span>, at: int, span: Span)
    requires
        in_order(spans),
        0 <= at <= spans.len(),
        span.start < span.end,
        forall|j: int| 0 <= j < at ==> (#[trigger] spans[j]).end <= span.start,
        forall|j: int| at <= j < spans.len() ==> span.end <= (#[trigger] spans[j]).start,
    ensures
        in_order(spans.insert(at, span)),
        spans.insert(at, span).to_set() == spans.to_set().insert(span),
{
    let wider = spans.insert(at, span);
    spans.insert_ensures(at, span);
    assert forall|i: int| 0 <= i < wider.len() implies (#[trigger] wider[i]).start
        < wider[i].end by {
        if i < at {
            assert(wider[i] == spans[i]);
        } else if i > at {
            assert(wider[(i - 1) + 1] == spans[i - 1]);
        }
    }
    assert forall|i: int, j: int| 0 <= i < j < wider.len() implies wider[i].end
        <= wider[j].start by {
        if i < at {
            assert(wider[i] == spans[i]);
        } else if i > at {
            assert(wider[(i - 1) + 1] == spans[i - 1]);
        }
        if j < at {
            assert(wider[j] == spans[j]);
        } else if j > at {
            assert(wider[(j - 1) + 1] == spans[j - 1]);
        }
    }
    assert forall|c: Span| wider.to_set().contains(c) == spans.to_set().insert(span).contains(
        c,
    ) by {
        if wider.contains(c) {
            let i = choose|i: int| 0 <= i < wider.len() && wider[i] == c;
            if i < at {
                assert(spans[i] == c);
            } else if i > at {
                assert(wider[(i - 1) + 1] == spans[i - 1]);
                assert(spans[i - 1] == c);
            }
        }
        if spans.contains(c) {
            let i = choose|i: int| 0 <= i < spans.len() && spans[i] == c;
            if i < at {
                assert(wider[i] == c);
            } else {
                assert(wider[i + 1] == c);
            }
        }
        if c == span {
            assert(wider[at] == c);
        }
    }
    assert(wider.to_set() =~= spans.to_set().insert(span));
}

impl<'a> ArchiveContext<'a> {
    /// The bytes of the archive.
    pub closed spec fn archive(&self) -> Seq<u8> {
        self.bytes@
    }

    /// The open ranges, outermost first.
    pub closed spec fn ancestors(&self) -> Seq<Span> {
        self.ancestors@
    }

    /// The committed ranges.
    pub closed spec fn committed(&self) -> Set<Span> {
        self.committed@.to_set().union(self.vacant@)
    }

    /// The committed ranges are kept as the search for them expects.
    pub closed spec fn ordered(&self) -> bool {
        &&& in_order(self.committed@)
        &&& forall|c: Span| self.vacant@.contains(c) ==> c.vacant()
    }

    /// The tracker's invariant holds of this context.
    pub open spec fn wf(&self) -> bool {
        &&& self.archive().len() <= usize::MAX
        &&& self.ordered()
        &&& claims_sound(self.archive().len() as int, self.ancestors(), self.committed())
    }

    /// `guard` is the receipt of the innermost open range.
    pub open spec fn holds(&self, guard: ClaimGuard) -> bool {
        &&& self.ancestors().len() == guard.depth() + 1
        &&& self.ancestors().last() == guard.span()
    }

    /// A context over `bytes` with nothing open and nothing committed.
    pub fn new(bytes: &'a [u8]) -> (ctx: Self)
        ensures
            ctx.wf(),
            ctx.archive() == bytes@,
            ctx.ancestors() == Seq::<Span>::empty(),
            ctx.committed() == Set::<Span>::empty(),
    {
        let len: usize = bytes.len();
        let ctx = ArchiveContext {
            bytes,
            ancestors: Vec::new(),
            committed: Vec::new(),
            vacant: Ghost(Set::<Span>::empty()),
        };
        assert(ctx.committed() =~= Set::<Span>::empty());
        ctx
    }

    /// The archive that this context validates.
    pub fn bytes(&self) -> (b: &'a [u8])
        ensures
            b@ == self.archive(),
    {
        self.bytes
    }

    /// The number of open ranges.
    pub fn depth(&self) -> (n: usize)
        ensures
            n == self.ancestors().len(),
    {
        self.ancestors.len()
    }

    /// Whether `guard` is the receipt of the innermost open range.
    pub fn is_innermost(&self, guard: &ClaimGuard) -> (b: bool)
        ensures
            b == self.holds(*guard),
    {
        let n: usize = self.ancestors.len();
        if n == 0 || guard.depth != n - 1 {
            false
        } else {
            let top: Span = self.ancestors[n - 1];
            top.start == guard.span.start && top.end == guard.span.end
        }
    }

    /// The index of the first committed range that ends behind `at`; the
    /// number of committed ranges where none does.
    fn first_ending_behind(&self, at: usize) -> (i: usize)
        requires
            self.ordered(),
        ensures
            i <= self.committed@.len(),
            forall|j: int| 0 <= j < i ==> (#[trigger] self.committed@[j]).end <= at,
            forall|j: int| i <= j < self.committed@.len() ==> (#[trigger] self.committed@[j]).end > at,
    {
        let mut lo: usize = 0;
        let mut hi: usize = self.committed.len();
        while lo < hi
            invariant
                lo <= hi <= self.committed@.len(),
                in_order(self.committed@),
                forall|j: int| 0 <= j < lo ==> (#[trigger] self.committed@[j]).end <= at,
                forall|j: int|
                    hi <= j < self.committed@.len() ==> (#[trigger] self.committed@[j]).end > at,
            decreases hi - lo,
        {
            let mid: usize = lo + (hi - lo) / 2;
            if self.committed[mid].end <= at {
                assert forall|j: int| 0 <= j < mid + 1 implies (#[trigger] self.committed@[j]).end
                    <= at by {
                    if j < mid {
                        assert(self.committed@[j].end <= self.committed@[mid as int].start);
                    }
                }
                lo = mid + 1;
            } else {
                assert forall|j: int| mid <= j < self.committed@.len() implies (
                #[trigger] self.committed@[j]).end > at by {
                    if j > mid {
                        assert(self.committed@[mid as int].end <= self.committed@[j].start);
                    }
                }
                hi = mid;
            }
        }
        lo
    }

    /// Whether some committed range has a byte in common with `span`.
    pub fn overlaps_committed(&self, span: Span) -> (b: bool)
        requires
            self.wf(),
        ensures
            b == hits_committed(self.committed(), span),
    {
        if span.is_empty() {
            return false;
        }
        let i: usize = self.first_ending_behind(span.start);
        if i < self.committed.len() && self.committed[i].start < span.end {
            assert(self.committed@.to_set().contains(self.committed@[i as int]));
            assert(self.committed@[i as int].intersects(span));
            true
        } else {
            assert forall|c: Span| self.committed().contains(c) implies !(#[trigger] c.intersects(
                span,
            )) by {
                if self.committed@.to_set().contains(c) {
                    let j = choose|j: int| 0 <= j < self.committed@.len() && self.committed@[j] == c;
                    if j < i {
                        assert(self.committed@[j].end <= span.start);
                    } else if j > i {
                        assert(self.committed@[i as int].end <= self.committed@[j].start);
                        assert(self.committed@[i as int].start < self.committed@[i as int].end);
                    }
                } else {
                    assert(self.vacant@.contains(c));
                    assert(c.vacant());
                }
            }
            false
        }
    }

    /// Whether some open range has a byte in common with `span`.
    pub fn overlaps_ancestor(&self, span: Span) -> (b: bool)
        ensures
            b == hits_ancestor(self.ancestors(), span),
    {
        let mut i: usize = 0;
        while i < self.ancestors.len()
            invariant
                i <= self.ancestors@.len(),
                forall|j: int| 0 <= j < i ==> !(#[trigger] self.ancestors@[j]).intersects(span),
            decreases self.ancestors@.len() - i,
        {
            if self.ancestors[i].overlaps(&span) {
                return true;
            }
            i += 1;
        }
        false
    }

    /// Opens `span` before the walk descends into the sub-object that
    /// occupies it. A range that runs into a committed one is refused as an
    /// overlap, one that runs into an open one as a cycle; a refusal leaves
    /// the context as it was.
    pub fn enter(&mut self, span: Span) -> (r: Result<ClaimGuard, ValidationError>)
        requires
            old(self).wf(),
        ensures
            final(self).wf(),
            final(self).archive() == old(self).archive(),
            final(self).committed() == old(self).committed(),
            match enter_fault(
                old(self).archive().len() as int,
                old(self).ancestors(),
                old(self).committed(),
                span,
            ) {
                Some(e) => r == Err::<ClaimGuard, ValidationError>(e) && final(self).ancestors()
                    == old(self).ancestors(),
                None => r is Ok && r->Ok_0.span() == span && r->Ok_0.depth() == old(
                    self,
                ).ancestors().len() && final(self).ancestors() == old(self).ancestors().push(
                    span,
                ),
            },
    {
        if !span.is_empty() && span.end > self.bytes.len() {
            return Err(ValidationError::OutOfBounds);
        }
        if self.overlaps_committed(span) {
            return Err(ValidationError::OverlappingClaim);
        }
        if self.overlaps_ancestor(span) {
            return Err(ValidationError::CyclicClaim);
        }
        let depth: usize = self.ancestors.len();
        proof {
            lemma_open_keeps_sound(
                self.bytes@.len() as int,
                self.ancestors@,
                self.committed(),
                span,
            );
        }
        self.ancestors.push(span);
        Ok(ClaimGuard { depth, span })
    }

    /// Closes the innermost open range and commits it. The walk calls this
    /// on every way out of the sub-object, also after a failure inside it.
    pub fn exit(&mut self, guard: ClaimGuard)
        requires
            old(self).wf(),
            old(self).holds(guard),
        ensures
            final(self).wf(),
            final(self).archive() == old(self).archive(),
            final(self).ancestors() == old(self).ancestors().drop_last(),
            final(self).committed() == old(self).committed().insert(guard.span()),
    {
        let popped = self.ancestors.pop();
        let span: Span = guard.span;
        let ghost len = self.bytes@.len() as int;
        let ghost before = self.committed();
        proof {
            assert(old(self).ancestors@ =~= self.ancestors@.push(span));
            lemma_commit_keeps_sound(len, self.ancestors@, before, span);
        }
        if span.is_empty() {
            self.vacant = Ghost(self.vacant@.insert(span));
            assert(self.committed() =~= before.insert(span));
        } else {
            let i: usize = self.first_ending_behind(span.start);
            proof {
                let top = self.ancestors@.len() as int;
                assert forall|j: int| i <= j < self.committed@.len() implies span.end <= (
                #[trigger] self.committed@[j]).start by {
                    assert(old(self).committed().contains(self.committed@[j]));
                    assert(!old(self).ancestors@[top].intersects(self.committed@[j]));
                }
                lemma_insert_in_order(self.committed@, i as int, span);
            }
            self.committed.insert(i, span);
            assert(self.committed() =~= before.insert(span));
        }
    }
}

} // verus!
