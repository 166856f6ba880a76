//! What holds of every validation, stated over the model.

use vstd::prelude::*;
use crate::claims::{
    claim_fault, claims_sound, hits_ancestor, hits_committed, lemma_commit_keeps_sound,
    lemma_open_keeps_sound, ArchiveContext,
};
use crate::error::ValidationError;
use crate::extent::extent_fault;
use crate::shape::{align_of, lemma_layout_sound, shape_wf, size_of, tag_width, Shape};
use crate::span::Span;
use crate::walk::{
    lemma_slack_shrinks, rank, slack, span_at, walk, walk_boxed, walk_elements, walk_fields,
    walk_optional, walk_owned, walk_root, walk_sequence, walk_text, walk_union, walkable,
};
use crate::accepted::{lemma_accepted_is_written, lemma_untouched_below, value_at};
use crate::archive_view::{
    count_of, element_of, field_of, payload_of, scalar_at, tag_of, target_of, text_of, variant_of,
};
use crate::wire::{le_value, resolved, stored_offset};
use crate::written::{
    claims, covered, holds_value, lemma_written_is_accepted, owns, pointee, written, Value,
};

verus! {

/// Bounds: validation succeeds only for a value that lies inside the
/// archive, from its first byte to its last, at a position that its
/// alignment divides.
pub proof fn lemma_success_implies_bounds(shapes: Seq<Shape>, bytes: Seq<u8>, id: int, root: int)
    requires
        walkable(shapes, bytes),
        0 <= id < shapes.len(),
        walk_root(shapes, bytes, id, root) is Ok,
    ensures
        0 <= root,
        root + size_of(shapes, id) <= bytes.len(),
        root % align_of(shapes, id) == 0,
{
}

/// Bounds, by kind of violation: a position behind the last byte is out of
/// bounds, a value that starts inside and ends outside overruns, and a
/// value that lies inside at a position that its alignment does not divide
/// is misaligned.
pub proof fn lemma_root_faults(shapes: Seq<Shape>, bytes: Seq<u8>, id: int, root: int)
    requires
        walkable(shapes, bytes),
        0 <= id < shapes.len(),
        0 <= root,
        size_of(shapes, id) > 0,
    ensures
        root >= bytes.len() ==> walk_root(shapes, bytes, id, root) == Err::<
            Set<Span>,
            ValidationError,
        >(ValidationError::OutOfBounds),
        root < bytes.len() < root + size_of(shapes, id) ==> walk_root(shapes, bytes, id, root)
            == Err::<Set<Span>, ValidationError>(ValidationError::Overrun),
        root + size_of(shapes, id) <= bytes.len() && root % align_of(shapes, id) != 0
            ==> walk_root(shapes, bytes, id, root) == Err::<Set<Span>, ValidationError>(
            ValidationError::Misaligned,
        ),
{
}

/// In a context in which nothing is open and nothing committed, no claim
/// is refused.
pub proof fn lemma_first_claim_granted(span: Span)
    ensures
        claim_fault(Seq::<Span>::empty(), Set::<Span>::empty(), span) is None,
{
}

/// Tag rejection: an optional value that lies inside the archive and whose
/// tag is neither 0 nor 1 is refused as an invalid discriminant, whatever
/// follows the tag.
pub proof fn lemma_unknown_optional_tag(shapes: Seq<Shape>, bytes: Seq<u8>, id: int, root: int)
    requires
        walkable(shapes, bytes),
        0 <= id < shapes.len(),
        shapes[id] is Optional,
        extent_fault(bytes.len() as int, root, size_of(shapes, id), align_of(shapes, id)) is None,
        bytes[root] != 0,
        bytes[root] != 1,
    ensures
        walk_root(shapes, bytes, id, root) == Err::<Set<Span>, ValidationError>(
            ValidationError::InvalidDiscriminant,
        ),
{
    let span = span_at(root, size_of(shapes, id));
    lemma_first_claim_granted(span);
    assert(walk_optional(
        shapes,
        bytes,
        Seq::<Span>::empty().push(span),
        Set::<Span>::empty(),
        id,
        root,
    ) == Err::<Set<Span>, ValidationError>(ValidationError::InvalidDiscriminant));
}

/// Tag rejection for unions: a union that lies inside the archive and whose
/// tag counts past its last variant is refused as an invalid discriminant,
/// whatever follows the tag.
pub proof fn lemma_unknown_union_tag(shapes: Seq<Shape>, bytes: Seq<u8>, id: int, root: int)
    requires
        walkable(shapes, bytes),
        0 <= id < shapes.len(),
        shapes[id] is Union,
        extent_fault(bytes.len() as int, root, size_of(shapes, id), align_of(shapes, id)) is None,
        le_value(bytes, root, tag_width(shapes[id]->variants@.len() as int) as nat)
            >= shapes[id]->variants@.len(),
    ensures
        walk_root(shapes, bytes, id, root) == Err::<Set<Span>, ValidationError>(
            ValidationError::InvalidDiscriminant,
        ),
{
    let span = span_at(root, size_of(shapes, id));
    lemma_first_claim_granted(span);
    assert(walk_union(
        shapes,
        bytes,
        Seq::<Span>::empty().push(span),
        Set::<Span>::empty(),
        id,
        root,
    ) == Err::<Set<Span>, ValidationError>(ValidationError::InvalidDiscriminant));
}

/// The range that the text whose reference stands at `pos` points to.
pub open spec fn text_span(bytes: Seq<u8>, pos: int) -> Span {
    span_at(pos + stored_offset(bytes, pos), le_value(bytes, pos + 4, 4) as int)
}

/// Overlap: of two texts that are each valid alone and whose ranges have a
/// byte in common, the one that is validated second is refused as an
/// overlapping claim.
pub proof fn lemma_shared_text_overlaps(
    bytes: Seq<u8>,
    ancestors: Seq<Span>,
    committed: Set<Span>,
    first: int,
    second: int,
)
    requires
        bytes.len() <= usize::MAX,
        walk_text(bytes, ancestors, committed, first) is Ok,
        walk_text(bytes, ancestors, committed, second) is Ok,
        text_span(bytes, first).intersects(text_span(bytes, second)),
    ensures
        walk_text(bytes, ancestors, walk_text(bytes, ancestors, committed, first)->Ok_0, second)
            == Err::<Set<Span>, ValidationError>(ValidationError::OverlappingClaim),
{
    let after = walk_text(bytes, ancestors, committed, first)->Ok_0;
    assert(after.contains(text_span(bytes, first)));
    assert(hits_committed(after, text_span(bytes, second)));
}

/// Cycle: an owning reference whose target lies inside the archive, meets
/// no committed range and runs into a range that is still open is refused
/// as a cyclic claim. The walk does not descend into the target.
pub proof fn lemma_reentry_is_cyclic(
    shapes: Seq<Shape>,
    bytes: Seq<u8>,
    ancestors: Seq<Span>,
    committed: Set<Span>,
    id: int,
    pos: int,
)
    requires
        walkable(shapes, bytes),
        0 <= id < shapes.len(),
        shapes[id] is Boxed,
        resolved(pos, stored_offset(bytes, pos), bytes.len() as int) is Some,
        extent_fault(
            bytes.len() as int,
            pos + stored_offset(bytes, pos),
            size_of(shapes, shapes[id]->target as int),
            align_of(shapes, shapes[id]->target as int),
        ) is None,
        !hits_committed(
            committed,
            span_at(pos + stored_offset(bytes, pos), size_of(shapes, shapes[id]->target as int)),
        ),
        hits_ancestor(
            ancestors,
            span_at(pos + stored_offset(bytes, pos), size_of(shapes, shapes[id]->target as int)),
        ),
    ensures
        walk_boxed(shapes, bytes, ancestors, committed, id, pos) == Err::<
            Set<Span>,
            ValidationError,
        >(ValidationError::CyclicClaim),
{
}

/// Idempotence: two contexts over the same archive in which nothing is open
/// and nothing committed answer alike, and as `validate` does. Validation
/// has no memory of earlier runs.
pub proof fn lemma_fresh_contexts_agree(
    a: &ArchiveContext,
    b: &ArchiveContext,
    shapes: Seq<Shape>,
    id: int,
    root: int,
)
    requires
        a.archive() == b.archive(),
        a.ancestors().len() == 0,
        b.ancestors().len() == 0,
        a.committed() == Set::<Span>::empty(),
        b.committed() == Set::<Span>::empty(),
    ensures
        walk_owned(shapes, a.archive(), a.ancestors(), a.committed(), id, root) == walk_owned(
            shapes,
            b.archive(),
            b.ancestors(),
            b.committed(),
            id,
            root,
        ),
        walk_owned(shapes, a.archive(), a.ancestors(), a.committed(), id, root) == walk_root(
            shapes,
            a.archive(),
            id,
            root,
        ),
{
    assert(a.ancestors() =~= Seq::<Span>::empty());
    assert(b.ancestors() =~= Seq::<Span>::empty());
}

/// Round trip, at the root: an archive that holds the value `v` of shape
/// `id` at `root`, where nothing that the value owns lies in the value's
/// own bytes, is accepted, and what validation has claimed are the root's
/// range and the ranges of the value's owned parts.
pub proof fn lemma_round_trip(shapes: Seq<Shape>, bytes: Seq<u8>, id: int, root: int, v: Value)
    requires
        walkable(shapes, bytes),
        written(shapes, bytes, id, root, v),
        forall|b: int|
            root <= b < root + size_of(shapes, id) ==> !#[trigger] owns(
                shapes,
                bytes,
                id,
                root,
                v,
                b,
            ),
    ensures
        walk_root(shapes, bytes, id, root) == Ok::<Set<Span>, ValidationError>(
            claims(shapes, bytes, id, root, v).insert(span_at(root, size_of(shapes, id))),
        ),
{
    let span = span_at(root, size_of(shapes, id));
    let open = Seq::<Span>::empty().push(span);
    let none = Set::<Span>::empty();
    lemma_layout_sound(shapes, id);
    lemma_first_claim_granted(span);
    assert forall|b: int| #[trigger] owns(shapes, bytes, id, root, v, b) implies !covered(
        open,
        none,
        b,
    ) by {
        if exists|k: int| 0 <= k < open.len() && (#[trigger] open[k]).contains(b) {
            let k = choose|k: int| 0 <= k < open.len() && (#[trigger] open[k]).contains(b);
            assert(open[k] == span);
        }
    }
    lemma_written_is_accepted(shapes, bytes, open, none, id, root, v);
    assert(none.union(claims(shapes, bytes, id, root, v)) =~= claims(shapes, bytes, id, root, v));
}

/// Validation accepts exactly the archives that hold a value: it succeeds
/// for shape `id` at `root` if and only if there is a value of that shape
/// that the archive holds there.
pub proof fn lemma_accepts_exactly_what_is_written(
    shapes: Seq<Shape>,
    bytes: Seq<u8>,
    id: int,
    root: int,
)
    requires
        walkable(shapes, bytes),
        0 <= id < shapes.len(),
    ensures
        walk_root(shapes, bytes, id, root) is Ok <==> exists|v: Value| #[trigger]
            holds_value(shapes, bytes, id, root, v),
{
    if exists|v: Value| #[trigger] holds_value(shapes, bytes, id, root, v) {
        let v = choose|v: Value| #[trigger] holds_value(shapes, bytes, id, root, v);
        lemma_round_trip(shapes, bytes, id, root, v);
    }
    if walk_root(shapes, bytes, id, root) is Ok {
        let span = span_at(root, size_of(shapes, id));
        let open = Seq::<Span>::empty().push(span);
        let none = Set::<Span>::empty();
        lemma_layout_sound(shapes, id);
        lemma_accepted_is_written(shapes, bytes, open, none, id, root);
        let v = value_at(shapes, bytes, open, id, root);
        lemma_untouched_below(shapes, bytes, id, root, v, Seq::<Span>::empty(), none, span);
        assert forall|b: int| root <= b < root + size_of(shapes, id) implies !#[trigger] owns(
            shapes,
            bytes,
            id,
            root,
            v,
            b,
        ) by {
            assert(span.contains(b));
        }
        assert(holds_value(shapes, bytes, id, root, v));
    }
}

/// Round trip, second half: what a view shows of a written number is the
/// number.
pub proof fn lemma_view_shows_scalar(
    shapes: Seq<Shape>,
    bytes: Seq<u8>,
    id: int,
    pos: int,
    n: nat,
)
    requires
        written(shapes, bytes, id, pos, Value::Scalar(n)),
        shapes[id]->width <= 8,
    ensures
        scalar_at(shapes, bytes, id, pos) == Some(n as u64),
{
}

/// What a view shows of a written optional value: nothing where it is
/// absent, and where it is present the place at which the payload is
/// written.
pub proof fn lemma_view_shows_optional(
    shapes: Seq<Shape>,
    bytes: Seq<u8>,
    id: int,
    pos: int,
    v: Value,
)
    requires
        written(shapes, bytes, id, pos, v),
        shapes[id] is Optional,
    ensures
        v is Absent ==> payload_of(shapes, bytes, id, pos) is None,
        v matches Value::Present(inner) ==> payload_of(shapes, bytes, id, pos) matches Some(place)
            && written(shapes, bytes, place.0, place.1, *inner),
{
}

/// What a view shows of a written text are the bytes of the text.
pub proof fn lemma_view_shows_text(
    shapes: Seq<Shape>,
    bytes: Seq<u8>,
    id: int,
    pos: int,
    text: Seq<u8>,
)
    requires
        written(shapes, bytes, id, pos, Value::Text(text)),
    ensures
        text_of(shapes, bytes, id, pos) matches Some(range) && bytes.subrange(range.0, range.1)
            == text,
{
}

/// What a view shows of a written owning reference is the place at which
/// the owned value is written.
pub proof fn lemma_view_shows_boxed(
    shapes: Seq<Shape>,
    bytes: Seq<u8>,
    id: int,
    pos: int,
    inner: Value,
)
    requires
        written(shapes, bytes, id, pos, Value::Boxed(Box::new(inner))),
    ensures
        target_of(shapes, bytes, id, pos) matches Some(place) && written(
            shapes,
            bytes,
            place.0,
            place.1,
            inner,
        ),
{
}

/// What a view shows of a written sequence are its count and, for each
/// element, the place at which that element is written.
pub proof fn lemma_view_shows_sequence(
    shapes: Seq<Shape>,
    bytes: Seq<u8>,
    id: int,
    pos: int,
    items: Seq<Value>,
    i: int,
)
    requires
        written(shapes, bytes, id, pos, Value::Sequence(items)),
        0 <= i < items.len(),
    ensures
        count_of(shapes, bytes, id, pos) == Some(items.len() as int),
        element_of(shapes, bytes, id, pos, i) matches Some(place) && written(
            shapes,
            bytes,
            place.0,
            place.1,
            items[i],
        ),
{
    let element = shapes[id]->element as int;
    assert(written(
        shapes,
        bytes,
        element,
        pointee(bytes, pos) + i * size_of(shapes, element),
        items[i],
    ));
}

/// What a view shows of a written record is, for each field, the place at
/// which that field is written.
pub proof fn lemma_view_shows_record(
    shapes: Seq<Shape>,
    bytes: Seq<u8>,
    id: int,
    pos: int,
    parts: Seq<Value>,
    k: int,
)
    requires
        written(shapes, bytes, id, pos, Value::Record(parts)),
        0 <= k < parts.len(),
    ensures
        field_of(shapes, id, pos, k) matches Some(place) && written(
            shapes,
            bytes,
            place.0,
            place.1,
            parts[k],
        ),
{
    let fields = shapes[id]->fields@;
    assert(written(shapes, bytes, fields[k].shape as int, pos + fields[k].offset, parts[k]));
}

/// What a view shows of a written union are the number of the variant and
/// the place at which the variant's fields are written.
pub proof fn lemma_view_shows_variant(
    shapes: Seq<Shape>,
    bytes: Seq<u8>,
    id: int,
    pos: int,
    tag: nat,
    inner: Value,
)
    requires
        written(shapes, bytes, id, pos, Value::Variant(tag, Box::new(inner))),
    ensures
        tag_of(shapes, bytes, id, pos) == Some(tag as int),
        variant_of(shapes, bytes, id, pos) matches Some(place) && written(
            shapes,
            bytes,
            place.0,
            place.1,
            inner,
        ),
{
}

/// The invariant of the claims holds before and after, and nothing that
/// was committed before is missing after.
pub open spec fn kept(
    len: int,
    ancestors: Seq<Span>,
    before: Set<Span>,
    outcome: Result<Set<Span>, ValidationError>,
) -> bool {
    outcome matches Ok(after) ==> claims_sound(len, ancestors, after) && before.subset_of(after)
}

/// A successful walk keeps the invariant of the claims: the ranges it
/// leaves committed lie in the archive and no two of them share a byte, nor
/// does one of them share a byte with a range that is open. It forgets no
/// range that was committed before it.
pub proof fn lemma_walk_keeps_claims(
    shapes: Seq<Shape>,
    bytes: Seq<u8>,
    ancestors: Seq<Span>,
    committed: Set<Span>,
    id: int,
    pos: int,
)
    requires
        walkable(shapes, bytes),
        0 <= id < shapes.len(),
        claims_sound(bytes.len() as int, ancestors, committed),
    ensures
        kept(
            bytes.len() as int,
            ancestors,
            committed,
            walk(shapes, bytes, ancestors, committed, id, pos),
        ),
    decreases slack(bytes.len() as int, ancestors), 4 * rank(shapes, id) + 3, 0int,
{
    let len = bytes.len() as int;
    if extent_fault(len, pos, size_of(shapes, id), align_of(shapes, id)) is None {
        assert(shape_wf(shapes, id));
        match shapes[id] {
            Shape::Scalar { .. } => {},
            Shape::Optional { payload } => {
                if bytes[pos] == 1 {
                    lemma_layout_sound(shapes, payload as int);
                    lemma_walk_keeps_claims(
                        shapes,
                        bytes,
                        ancestors,
                        committed,
                        payload as int,
                        pos + align_of(shapes, id),
                    );
                }
            },
            Shape::Text => {
                lemma_text_keeps_claims(bytes, ancestors, committed, pos);
            },
            Shape::Boxed { target } => {
                let at = pos + stored_offset(bytes, pos);
                let span = span_at(at, size_of(shapes, target as int));
                if walk_boxed(shapes, bytes, ancestors, committed, id, pos) is Ok {
                    lemma_layout_sound(shapes, target as int);
                    lemma_slack_shrinks(len, ancestors, span);
                    lemma_open_keeps_sound(len, ancestors, committed, span);
                    lemma_walk_keeps_claims(
                        shapes,
                        bytes,
                        ancestors.push(span),
                        committed,
                        target as int,
                        at,
                    );
                    let inner = walk(
                        shapes,
                        bytes,
                        ancestors.push(span),
                        committed,
                        target as int,
                        at,
                    )->Ok_0;
                    lemma_commit_keeps_sound(len, ancestors, inner, span);
                }
            },
            Shape::Sequence { element } => {
                let at = pos + stored_offset(bytes, pos);
                let count = le_value(bytes, pos + 4, 4) as int;
                let span = span_at(at, count * size_of(shapes, element as int));
                if walk_sequence(shapes, bytes, ancestors, committed, id, pos) is Ok {
                    lemma_layout_sound(shapes, element as int);
                    lemma_slack_shrinks(len, ancestors, span);
                    lemma_open_keeps_sound(len, ancestors, committed, span);
                    if count == 0 {
                        lemma_commit_keeps_sound(len, ancestors, committed, span);
                    } else {
                        assert(size_of(shapes, element as int) > 0 ==> count * size_of(
                            shapes,
                            element as int,
                        ) > 0) by (nonlinear_arith)
                            requires
                                count > 0,
                        ;
                        lemma_elements_keep_claims(
                            shapes,
                            bytes,
                            ancestors.push(span),
                            committed,
                            element as int,
                            at,
                            0,
                            count,
                        );
                        let inner = walk_elements(
                            shapes,
                            bytes,
                            ancestors.push(span),
                            committed,
                            element as int,
                            at,
                            0,
                            count,
                        )->Ok_0;
                        lemma_commit_keeps_sound(len, ancestors, inner, span);
                    }
                }
            },
            Shape::Record { .. } => {
                lemma_fields_keep_claims(shapes, bytes, ancestors, committed, id, pos, 0);
            },
            Shape::Union { variants, .. } => {
                let tag = le_value(bytes, pos, tag_width(variants@.len() as int) as nat) as int;
                if tag < variants@.len() {
                    lemma_walk_keeps_claims(
                        shapes,
                        bytes,
                        ancestors,
                        committed,
                        variants@[tag] as int,
                        pos,
                    );
                }
            },
        }
    }
}

/// A text that is accepted keeps the invariant of the claims.
pub proof fn lemma_text_keeps_claims(
    bytes: Seq<u8>,
    ancestors: Seq<Span>,
    committed: Set<Span>,
    pos: int,
)
    requires
        bytes.len() <= usize::MAX,
        claims_sound(bytes.len() as int, ancestors, committed),
    ensures
        kept(bytes.len() as int, ancestors, committed, walk_text(bytes, ancestors, committed, pos)),
{
    let len = bytes.len() as int;
    if walk_text(bytes, ancestors, committed, pos) is Ok {
        let span = text_span(bytes, pos);
        lemma_open_keeps_sound(len, ancestors, committed, span);
        lemma_commit_keeps_sound(len, ancestors, committed, span);
    }
}

/// The elements of a sequence that are accepted one after another keep the
/// invariant of the claims.
pub proof fn lemma_elements_keep_claims(
    shapes: Seq<Shape>,
    bytes: Seq<u8>,
    ancestors: Seq<Span>,
    committed: Set<Span>,
    element: int,
    base: int,
    i: int,
    count: int,
)
    requires
        walkable(shapes, bytes),
        0 <= element < shapes.len(),
        0 <= i,
        claims_sound(bytes.len() as int, ancestors, committed),
    ensures
        kept(
            bytes.len() as int,
            ancestors,
            committed,
            walk_elements(shapes, bytes, ancestors, committed, element, base, i, count),
        ),
    decreases slack(bytes.len() as int, ancestors), 4 * rank(shapes, element) + 4, count - i,
{
    if i < count {
        let at = base + i * size_of(shapes, element);
        lemma_walk_keeps_claims(shapes, bytes, ancestors, committed, element, at);
        match walk(shapes, bytes, ancestors, committed, element, at) {
            Ok(next) => {
                lemma_elements_keep_claims(
                    shapes,
                    bytes,
                    ancestors,
                    next,
                    element,
                    base,
                    i + 1,
                    count,
                );
            },
            Err(_) => {},
        }
    }
}

/// The fields of a record that are accepted one after another keep the
/// invariant of the claims.
pub proof fn lemma_fields_keep_claims(
    shapes: Seq<Shape>,
    bytes: Seq<u8>,
    ancestors: Seq<Span>,
    committed: Set<Span>,
    id: int,
    pos: int,
    k: int,
)
    requires
        walkable(shapes, bytes),
        0 <= id < shapes.len(),
        shapes[id] is Record,
        0 <= k,
        claims_sound(bytes.len() as int, ancestors, committed),
    ensures
        kept(
            bytes.len() as int,
            ancestors,
            committed,
            walk_fields(shapes, bytes, ancestors, committed, id, pos, k),
        ),
    decreases slack(bytes.len() as int, ancestors), 4 * rank(shapes, id) + 2, shapes[id]->fields@.len()
        - k,
{
    let fields = shapes[id]->fields@;
    if k < fields.len() {
        assert(shape_wf(shapes, id));
        let part = fields[k].shape as int;
        let at = pos + fields[k].offset;
        lemma_walk_keeps_claims(shapes, bytes, ancestors, committed, part, at);
        match walk(shapes, bytes, ancestors, committed, part, at) {
            Ok(next) => {
                lemma_fields_keep_claims(shapes, bytes, ancestors, next, id, pos, k + 1);
            },
            Err(_) => {},
        }
    }
}

/// No aliasing: the ranges that a successful validation has claimed lie in
/// the archive, and no two of them share a byte.
pub proof fn lemma_validated_claims_disjoint(
    shapes: Seq<Shape>,
    bytes: Seq<u8>,
    id: int,
    root: int,
)
    requires
        walkable(shapes, bytes),
        0 <= id < shapes.len(),
    ensures
        walk_root(shapes, bytes, id, root) matches Ok(claims) ==> claims_sound(
            bytes.len() as int,
            Seq::<Span>::empty(),
            claims,
        ) && claims.contains(span_at(root, size_of(shapes, id))),
{
    let len = bytes.len() as int;
    let none = Seq::<Span>::empty();
    let span = span_at(root, size_of(shapes, id));
    if walk_root(shapes, bytes, id, root) is Ok {
        lemma_layout_sound(shapes, id);
        lemma_open_keeps_sound(len, none, Set::<Span>::empty(), span);
        lemma_walk_keeps_claims(shapes, bytes, none.push(span), Set::<Span>::empty(), id, root);
        let inner = walk(shapes, bytes, none.push(span), Set::<Span>::empty(), id, root)->Ok_0;
        lemma_commit_keeps_sound(len, none, inner, span);
    }
}

} // verus!
