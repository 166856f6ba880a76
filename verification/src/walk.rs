//! What validation answers, as a function of the archive, the table of
//! shapes, the claims made so far, a shape and a position.
//!
//! The walk is depth first and stops at the first violation. The stack of
//! open ranges is handed down and never handed back, so that a walk leaves
//! it as it found it by construction; the committed ranges are threaded
//! through, and a successful walk answers with the set it leaves behind.

use vstd::prelude::*;
use vstd::set_lib::*;
use crate::claims::{claim_fault, hits_ancestor};
use crate::error::ValidationError;
use crate::extent::extent_fault;
use crate::shape::{
    align_of, lemma_layout_sound, registry_wf, shape_wf, size_of, tag_width, Shape,
};
use crate::span::Span;
use crate::wire::{le_value, resolved, stored_offset};

verus! {

/// The outcome of a walk: the committed ranges it leaves, or the first
/// violation.
pub type Outcome = Result<Set<Span>, ValidationError>;

/// The range of `size` bytes that starts at `start`.
pub open spec fn span_at(start: int, size: int) -> Span {
    Span { start: start as usize, end: (start + size) as usize }
}

/// The bytes of an archive of `len` bytes that no open range covers.
pub open spec fn uncovered(len: int, ancestors: Seq<Span>) -> Set<int> {
    Set::new(
        |i: int|
            0 <= i < len && forall|k: int|
                0 <= k < ancestors.len() ==> !(#[trigger] ancestors[k]).contains(i),
    )
}

/// How many bytes no open range covers. Opening a range that holds a byte
/// lowers it, which bounds the depth of any walk.
pub open spec fn slack(len: int, ancestors: Seq<Span>) -> nat {
    uncovered(len, ancestors).len()
}

/// The place of a shape in the order in which walks nest without opening a
/// range: a shape without bytes stands below every shape with bytes, and
/// otherwise the table's order decides.
pub open spec fn rank(shapes: Seq<Shape>, id: int) -> int {
    if size_of(shapes, id) > 0 {
        shapes.len() + id
    } else {
        id
    }
}

pub proof fn lemma_uncovered_finite(len: int, ancestors: Seq<Span>)
    ensures
        uncovered(len, ancestors).finite(),
{
    if len >= 0 {
        lemma_int_range(0, len);
        assert(uncovered(len, ancestors).subset_of(set_int_range(0, len)));
        lemma_len_subset(uncovered(len, ancestors), set_int_range(0, len));
    } else {
        assert(uncovered(len, ancestors) =~= Set::<int>::empty());
    }
}

/// Opening a range never uncovers a byte, and opening one that holds a byte,
/// lies in the archive and meets no open range covers at least one more.
pub proof fn lemma_slack_shrinks(len: int, ancestors: Seq<Span>, span: Span)
    ensures
        slack(len, ancestors.push(span)) <= slack(len, ancestors),
        span.start < span.end <= len && !hits_ancestor(ancestors, span) ==> slack(
            len,
            ancestors.push(span),
        ) < slack(len, ancestors),
{
    let before = uncovered(len, ancestors);
    let after = uncovered(len, ancestors.push(span));
    let wider = ancestors.push(span);
    lemma_uncovered_finite(len, ancestors);
    assert forall|i: int| after.contains(i) implies before.contains(i) by {
        assert forall|k: int| 0 <= k < ancestors.len() implies !(#[trigger] ancestors[k]).contains(
            i,
        ) by {
            assert(wider[k] == ancestors[k]);
        }
    }
    assert(after.subset_of(before));
    lemma_len_subset(after, before);
    if span.start < span.end <= len && !hits_ancestor(ancestors, span) {
        let first = span.start as int;
        assert forall|k: int| 0 <= k < ancestors.len() implies !(#[trigger] ancestors[k]).contains(
            first,
        ) by {
            assert(!ancestors[k].intersects(span));
        }
        assert(before.contains(first));
        assert forall|i: int| after.contains(i) implies before.remove(first).contains(i) by {
            assert(wider[ancestors.len() as int] == span);
            assert(!wider[ancestors.len() as int].contains(i));
        }
        assert(after.subset_of(before.remove(first)));
        lemma_len_subset(after, before.remove(first));
    }
}

/// The table holds together, and the archive is one that fits in memory.
pub open spec fn walkable(shapes: Seq<Shape>, bytes: Seq<u8>) -> bool {
    registry_wf(shapes) && bytes.len() <= usize::MAX
}

/// Validates shape `id` at `pos`: its bounds and alignment first, then what
/// the kind of shape asks for.
pub open spec fn walk(
    shapes: Seq<Shape>,
    bytes: Seq<u8>,
    ancestors: Seq<Span>,
    committed: Set<Span>,
    id: int,
    pos: int,
) -> Outcome
    decreases slack(bytes.len() as int, ancestors), 4 * rank(shapes, id) + 3, 0int,
    when walkable(shapes, bytes) && 0 <= id < shapes.len()
{
    match extent_fault(bytes.len() as int, pos, size_of(shapes, id), align_of(shapes, id)) {
        Some(e) => Err(e),
        None => match shapes[id] {
            Shape::Scalar { .. } => Ok(committed),
            Shape::Optional { .. } => walk_optional(shapes, bytes, ancestors, committed, id, pos),
            Shape::Text => walk_text(bytes, ancestors, committed, pos),
            Shape::Boxed { .. } => walk_boxed(shapes, bytes, ancestors, committed, id, pos),
            Shape::Sequence { .. } => walk_sequence(shapes, bytes, ancestors, committed, id, pos),
            Shape::Record { .. } => walk_fields(shapes, bytes, ancestors, committed, id, pos, 0),
            Shape::Union { .. } => walk_union(shapes, bytes, ancestors, committed, id, pos),
        },
    }
}

/// An optional value whose own bytes are in bounds: tag 0 is absent, tag 1
/// is followed by the payload behind the padding, and no other tag is known.
pub open spec fn walk_optional(
    shapes: Seq<Shape>,
    bytes: Seq<u8>,
    ancestors: Seq<Span>,
    committed: Set<Span>,
    id: int,
    pos: int,
) -> Outcome
    decreases slack(bytes.len() as int, ancestors), 4 * rank(shapes, id) + 2, 0int,
    when walkable(shapes, bytes) && 0 <= id < shapes.len() && shapes[id] is Optional
{
    let payload = shapes[id]->payload as int;
    let tag = bytes[pos];
    if tag == 0 {
        Ok(committed)
    } else if tag == 1 {
        proof {
            assert(shape_wf(shapes, id));
            lemma_layout_sound(shapes, payload);
        }
        walk(shapes, bytes, ancestors, committed, payload, pos + align_of(shapes, id))
    } else {
        Err(ValidationError::InvalidDiscriminant)
    }
}

/// Owned bytes whose reference is in bounds: the target has to lie in the
/// archive, then the whole range, and then the range is claimed. There is
/// nothing inside it to descend into, so it is committed at once.
pub open spec fn walk_text(
    bytes: Seq<u8>,
    ancestors: Seq<Span>,
    committed: Set<Span>,
    pos: int,
) -> Outcome {
    let len = bytes.len() as int;
    match resolved(pos, stored_offset(bytes, pos), len) {
        None => Err(ValidationError::OutOfBounds),
        Some(at) => {
            let count = le_value(bytes, pos + 4, 4) as int;
            let span = span_at(at, count);
            if at + count > len {
                Err(ValidationError::OutOfBounds)
            } else {
                match claim_fault(ancestors, committed, span) {
                    Some(e) => Err(e),
                    None => Ok(committed.insert(span)),
                }
            }
        },
    }
}

/// A value of shape `id` that is addressed on its own, at `at`: its bounds
/// and alignment come first, then the claim on its range. The value is
/// walked with the range open, and the range is committed after it.
pub open spec fn walk_owned(
    shapes: Seq<Shape>,
    bytes: Seq<u8>,
    ancestors: Seq<Span>,
    committed: Set<Span>,
    id: int,
    at: int,
) -> Outcome
    recommends
        walkable(shapes, bytes),
        0 <= id < shapes.len(),
{
    let span = span_at(at, size_of(shapes, id));
    match extent_fault(bytes.len() as int, at, size_of(shapes, id), align_of(shapes, id)) {
        Some(e) => Err(e),
        None => match claim_fault(ancestors, committed, span) {
            Some(e) => Err(e),
            None => match walk(shapes, bytes, ancestors.push(span), committed, id, at) {
                Err(e) => Err(e),
                Ok(inner) => Ok(inner.insert(span)),
            },
        },
    }
}

/// An owning reference whose own bytes are in bounds: the target is
/// resolved and then validated as a value addressed on its own.
pub open spec fn walk_boxed(
    shapes: Seq<Shape>,
    bytes: Seq<u8>,
    ancestors: Seq<Span>,
    committed: Set<Span>,
    id: int,
    pos: int,
) -> Outcome
    decreases slack(bytes.len() as int, ancestors), 4 * rank(shapes, id) + 2, 0int,
    when walkable(shapes, bytes) && 0 <= id < shapes.len() && shapes[id] is Boxed
{
    let target = shapes[id]->target as int;
    let len = bytes.len() as int;
    match resolved(pos, stored_offset(bytes, pos), len) {
        None => Err(ValidationError::OutOfBounds),
        Some(at) => {
            let span = span_at(at, size_of(shapes, target));
            match extent_fault(len, at, size_of(shapes, target), align_of(shapes, target)) {
                Some(e) => Err(e),
                None => match claim_fault(ancestors, committed, span) {
                    Some(e) => Err(e),
                    None => {
                        proof {
                            assert(shape_wf(shapes, id));
                            lemma_layout_sound(shapes, target);
                            lemma_slack_shrinks(len, ancestors, span);
                        }
                        match walk(shapes, bytes, ancestors.push(span), committed, target, at) {
                            Err(e) => Err(e),
                            Ok(inner) => Ok(inner.insert(span)),
                        }
                    },
                },
            }
        },
    }
}

/// A sequence whose reference is in bounds: the target has to lie in the
/// archive, then the range of all elements, and the target has to be aligned
/// for an element. The range is claimed once for all elements, and they are
/// walked in order with it open.
pub open spec fn walk_sequence(
    shapes: Seq<Shape>,
    bytes: Seq<u8>,
    ancestors: Seq<Span>,
    committed: Set<Span>,
    id: int,
    pos: int,
) -> Outcome
    decreases slack(bytes.len() as int, ancestors), 4 * rank(shapes, id) + 2, 0int,
    when walkable(shapes, bytes) && 0 <= id < shapes.len() && shapes[id] is Sequence
{
    let element = shapes[id]->element as int;
    let len = bytes.len() as int;
    match resolved(pos, stored_offset(bytes, pos), len) {
        None => Err(ValidationError::OutOfBounds),
        Some(at) => {
            let count = le_value(bytes, pos + 4, 4) as int;
            let total = count * size_of(shapes, element);
            let span = span_at(at, total);
            if at + total > len {
                Err(ValidationError::OutOfBounds)
            } else if at % align_of(shapes, element) != 0 {
                Err(ValidationError::Misaligned)
            } else {
                match claim_fault(ancestors, committed, span) {
                    Some(e) => Err(e),
                    None => if count == 0 {
                        Ok(committed.insert(span))
                    } else {
                        proof {
                            assert(shape_wf(shapes, id));
                            lemma_layout_sound(shapes, element);
                            lemma_slack_shrinks(len, ancestors, span);
                            assert(size_of(shapes, element) > 0 ==> total > 0) by (nonlinear_arith)
                                requires
                                    count > 0,
                                    total == count * size_of(shapes, element),
                            ;
                        }
                        match walk_elements(
                            shapes,
                            bytes,
                            ancestors.push(span),
                            committed,
                            element,
                            at,
                            0,
                            count,
                        ) {
                            Err(e) => Err(e),
                            Ok(inner) => Ok(inner.insert(span)),
                        }
                    },
                }
            }
        },
    }
}

/// The elements `i`, `i + 1`, .., `count - 1` of a sequence that starts at
/// `base`, each validated where it stands, in order.
pub open spec fn walk_elements(
    shapes: Seq<Shape>,
    bytes: Seq<u8>,
    ancestors: Seq<Span>,
    committed: Set<Span>,
    element: int,
    base: int,
    i: int,
    count: int,
) -> Outcome
    decreases slack(bytes.len() as int, ancestors), 4 * rank(shapes, element) + 4, count - i,
    when walkable(shapes, bytes) && 0 <= element < shapes.len() && 0 <= i
{
    if i >= count {
        Ok(committed)
    } else {
        match walk(shapes, bytes, ancestors, committed, element, base + i * size_of(shapes, element)) {
            Err(e) => Err(e),
            Ok(next) => walk_elements(
                shapes,
                bytes,
                ancestors,
                next,
                element,
                base,
                i + 1,
                count,
            ),
        }
    }
}

/// The fields `k`, `k + 1`, .. of the record of shape `id` at `pos`, each
/// validated at its offset, in the order in which they are declared.
pub open spec fn walk_fields(
    shapes: Seq<Shape>,
    bytes: Seq<u8>,
    ancestors: Seq<Span>,
    committed: Set<Span>,
    id: int,
    pos: int,
    k: int,
) -> Outcome
    decreases slack(bytes.len() as int, ancestors), 4 * rank(shapes, id) + 2, shapes[id]->fields@.len()
        - k,
    when walkable(shapes, bytes) && 0 <= id < shapes.len() && shapes[id] is Record && 0 <= k
{
    let fields = shapes[id]->fields@;
    if k >= fields.len() {
        Ok(committed)
    } else {
        proof {
            assert(shape_wf(shapes, id));
        }
        match walk(shapes, bytes, ancestors, committed, fields[k].shape as int, pos + fields[k].offset) {
            Err(e) => Err(e),
            Ok(next) => walk_fields(shapes, bytes, ancestors, next, id, pos, k + 1),
        }
    }
}

/// A union whose own bytes are in bounds: the tag selects a variant, which
/// is validated from the start of the union. A tag that selects none is
/// refused without a look at what follows it.
pub open spec fn walk_union(
    shapes: Seq<Shape>,
    bytes: Seq<u8>,
    ancestors: Seq<Span>,
    committed: Set<Span>,
    id: int,
    pos: int,
) -> Outcome
    decreases slack(bytes.len() as int, ancestors), 4 * rank(shapes, id) + 2, 0int,
    when walkable(shapes, bytes) && 0 <= id < shapes.len() && shapes[id] is Union
{
    let variants = shapes[id]->variants@;
    let tag = le_value(bytes, pos, tag_width(variants.len() as int) as nat) as int;
    if tag < variants.len() {
        proof {
            assert(shape_wf(shapes, id));
        }
        walk(shapes, bytes, ancestors, committed, variants[tag] as int, pos)
    } else {
        Err(ValidationError::InvalidDiscriminant)
    }
}

/// Validating a value without bytes claims nothing: where it succeeds, the
/// committed ranges are left as they were.
pub proof fn lemma_empty_value_claims_nothing(
    shapes: Seq<Shape>,
    bytes: Seq<u8>,
    ancestors: Seq<Span>,
    committed: Set<Span>,
    id: int,
    pos: int,
)
    requires
        walkable(shapes, bytes),
        0 <= id < shapes.len(),
        size_of(shapes, id) == 0,
    ensures
        walk(shapes, bytes, ancestors, committed, id, pos) matches Ok(after) ==> after == committed,
    decreases id,
{
    assert(shape_wf(shapes, id));
    lemma_layout_sound(shapes, id);
    match shapes[id] {
        Shape::Optional { payload } => {
            lemma_layout_sound(shapes, payload as int);
        },
        Shape::Record { .. } => {
            lemma_empty_fields_claim_nothing(shapes, bytes, ancestors, committed, id, pos, 0);
        },
        _ => {},
    }
}

/// The fields of a record without bytes claim nothing.
pub proof fn lemma_empty_fields_claim_nothing(
    shapes: Seq<Shape>,
    bytes: Seq<u8>,
    ancestors: Seq<Span>,
    committed: Set<Span>,
    id: int,
    pos: int,
    k: int,
)
    requires
        walkable(shapes, bytes),
        0 <= id < shapes.len(),
        shapes[id] is Record,
        size_of(shapes, id) == 0,
        0 <= k,
    ensures
        walk_fields(shapes, bytes, ancestors, committed, id, pos, k) matches Ok(after) ==> after
            == committed,
    decreases id, shapes[id]->fields@.len() - k,
{
    let fields = shapes[id]->fields@;
    if k < fields.len() {
        assert(shape_wf(shapes, id));
        let part = fields[k].shape as int;
        lemma_layout_sound(shapes, part);
        lemma_empty_value_claims_nothing(
            shapes,
            bytes,
            ancestors,
            committed,
            part,
            pos + fields[k].offset,
        );
        lemma_empty_fields_claim_nothing(shapes, bytes, ancestors, committed, id, pos, k + 1);
    }
}

/// Elements without bytes all stand at one position, so that validating
/// the first of them is validating each: where it succeeds, so do the
/// elements from `i` on, and the committed ranges are left as they were.
pub proof fn lemma_empty_elements_alike(
    shapes: Seq<Shape>,
    bytes: Seq<u8>,
    ancestors: Seq<Span>,
    committed: Set<Span>,
    element: int,
    base: int,
    i: int,
    count: int,
)
    requires
        walkable(shapes, bytes),
        0 <= element < shapes.len(),
        size_of(shapes, element) == 0,
        0 <= i,
        walk(shapes, bytes, ancestors, committed, element, base) is Ok,
    ensures
        walk_elements(shapes, bytes, ancestors, committed, element, base, i, count) == Ok::<
            Set<Span>,
            ValidationError,
        >(committed),
    decreases count - i,
{
    if i < count {
        assert(base + i * size_of(shapes, element) == base);
        lemma_empty_value_claims_nothing(shapes, bytes, ancestors, committed, element, base);
        lemma_empty_elements_alike(shapes, bytes, ancestors, committed, element, base, i + 1, count);
    }
}

/// What validating shape `id` at `root` answers on an archive that nothing
/// has been claimed in: the root is a value addressed on its own.
pub open spec fn walk_root(shapes: Seq<Shape>, bytes: Seq<u8>, id: int, root: int) -> Outcome
    recommends
        walkable(shapes, bytes),
        0 <= id < shapes.len(),
{
    walk_owned(shapes, bytes, Seq::<Span>::empty(), Set::<Span>::empty(), id, root)
}

} // verus!
