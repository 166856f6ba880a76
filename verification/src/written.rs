//! What it means for an archive to hold a value, and that validation accepts
//! every archive that does.
//!
//! A writer turns a value into bytes. Of the writer nothing is known here
//! but the layout it keeps to: every part stands where its shape says, and
//! whatever a reference owns lies in bytes that nothing else owns. `written`
//! says that of an archive and a value, without a word on how the bytes got
//! there.

use vstd::prelude::*;
use crate::claims::{claim_fault, hits_ancestor, hits_committed};
use crate::error::ValidationError;
use crate::extent::extent_fault;
use crate::shape::{align_of, lemma_layout_sound, shape_wf, size_of, tag_width, Shape};
use crate::span::{lemma_intersects_is_shared_byte, Span};
use crate::walk::{
    span_at, walk, walk_boxed, walk_elements, walk_fields, walk_optional, walk_sequence,
    walk_union, walkable,
};
use crate::wire::{le_value, resolved, stored_offset};

verus! {

/// A value, as far as its layout goes.
pub enum Value {
    /// A number.
    Scalar(nat),
    /// An optional value that is absent.
    Absent,
    /// An optional value that is present.
    Present(Box<Value>),
    /// Owned bytes.
    Text(Seq<u8>),
    /// One owned value.
    Boxed(Box<Value>),
    /// Owned values of one shape.
    Sequence(Seq<Value>),
    /// The fields of a record, in the order in which they are declared.
    Record(Seq<Value>),
    /// A variant of a union: its number and its fields, as a record.
    Variant(nat, Box<Value>),
}

/// Where the reference at `pos` points to.
pub open spec fn pointee(bytes: Seq<u8>, pos: int) -> int {
    pos + stored_offset(bytes, pos)
}

/// The length or count that follows the reference at `pos`.
pub open spec fn stored_count(bytes: Seq<u8>, pos: int) -> int {
    le_value(bytes, pos + 4, 4) as int
}

/// The reference at `pos` points into an archive of these bytes.
pub open spec fn points_inside(bytes: Seq<u8>, pos: int) -> bool {
    resolved(pos, stored_offset(bytes, pos), bytes.len() as int) is Some
}

/// Byte `b` is one that the value `v` of shape `id` at `pos` owns through a
/// reference; the bytes of the value itself do not count.
pub open spec fn owns(shapes: Seq<Shape>, bytes: Seq<u8>, id: int, pos: int, v: Value, b: int)
    -> bool
    decreases v,
{
    &&& 0 <= id < shapes.len()
    &&& match (shapes[id], v) {
        (Shape::Optional { payload }, Value::Present(inner)) => owns(
            shapes,
            bytes,
            payload as int,
            pos + align_of(shapes, id),
            *inner,
            b,
        ),
        (Shape::Text, Value::Text(_)) => pointee(bytes, pos) <= b < pointee(bytes, pos)
            + stored_count(bytes, pos),
        (Shape::Boxed { target }, Value::Boxed(inner)) => {
            ||| pointee(bytes, pos) <= b < pointee(bytes, pos) + size_of(shapes, target as int)
            ||| owns(shapes, bytes, target as int, pointee(bytes, pos), *inner, b)
        },
        (Shape::Sequence { element }, Value::Sequence(items)) => {
            ||| pointee(bytes, pos) <= b < pointee(bytes, pos) + items.len() * size_of(
                shapes,
                element as int,
            )
            ||| exists|i: int|
                0 <= i < items.len() && owns(
                    shapes,
                    bytes,
                    element as int,
                    pointee(bytes, pos) + i * size_of(shapes, element as int),
                    #[trigger] items[i],
                    b,
                )
        },
        (Shape::Record { fields, .. }, Value::Record(parts)) => exists|k: int|
            0 <= k < parts.len() && k < fields@.len() && owns(
                shapes,
                bytes,
                fields@[k].shape as int,
                pos + fields@[k].offset,
                #[trigger] parts[k],
                b,
            ),
        (Shape::Union { variants, .. }, Value::Variant(tag, inner)) => tag < variants@.len()
            && owns(shapes, bytes, variants@[tag as int] as int, pos, *inner, b),
        _ => false,
    }
}

/// Range `c` is one that validating the value `v` of shape `id` at `pos`
/// claims.
pub open spec fn claimed(shapes: Seq<Shape>, bytes: Seq<u8>, id: int, pos: int, v: Value, c: Span)
    -> bool
    decreases v,
{
    &&& 0 <= id < shapes.len()
    &&& match (shapes[id], v) {
        (Shape::Optional { payload }, Value::Present(inner)) => claimed(
            shapes,
            bytes,
            payload as int,
            pos + align_of(shapes, id),
            *inner,
            c,
        ),
        (Shape::Text, Value::Text(_)) => c == span_at(
            pointee(bytes, pos),
            stored_count(bytes, pos),
        ),
        (Shape::Boxed { target }, Value::Boxed(inner)) => {
            ||| c == span_at(pointee(bytes, pos), size_of(shapes, target as int))
            ||| claimed(shapes, bytes, target as int, pointee(bytes, pos), *inner, c)
        },
        (Shape::Sequence { element }, Value::Sequence(items)) => {
            ||| c == span_at(pointee(bytes, pos), items.len() * size_of(shapes, element as int))
            ||| exists|i: int|
                0 <= i < items.len() && claimed(
                    shapes,
                    bytes,
                    element as int,
                    pointee(bytes, pos) + i * size_of(shapes, element as int),
                    #[trigger] items[i],
                    c,
                )
        },
        (Shape::Record { fields, .. }, Value::Record(parts)) => exists|k: int|
            0 <= k < parts.len() && k < fields@.len() && claimed(
                shapes,
                bytes,
                fields@[k].shape as int,
                pos + fields@[k].offset,
                #[trigger] parts[k],
                c,
            ),
        (Shape::Union { variants, .. }, Value::Variant(tag, inner)) => tag < variants@.len()
            && claimed(shapes, bytes, variants@[tag as int] as int, pos, *inner, c),
        _ => false,
    }
}

/// The ranges that validating the value `v` of shape `id` at `pos` claims.
pub open spec fn claims(shapes: Seq<Shape>, bytes: Seq<u8>, id: int, pos: int, v: Value) -> Set<
    Span,
> {
    Set::new(|c: Span| claimed(shapes, bytes, id, pos, v, c))
}

/// The archive holds the value `v` of shape `id` at `pos`: every part
/// stands in bounds and aligned where its shape says, tags and counts say
/// what the value is, and whatever a reference owns lies in bytes that no
/// other part of the value owns.
pub open spec fn written(shapes: Seq<Shape>, bytes: Seq<u8>, id: int, pos: int, v: Value) -> bool
    decreases v,
{
    &&& 0 <= id < shapes.len()
    &&& extent_fault(bytes.len() as int, pos, size_of(shapes, id), align_of(shapes, id)) is None
    &&& match (shapes[id], v) {
        (Shape::Scalar { width }, Value::Scalar(n)) => le_value(bytes, pos, width as nat) == n,
        (Shape::Optional { .. }, Value::Absent) => bytes[pos] == 0,
        (Shape::Optional { payload }, Value::Present(inner)) => {
            &&& bytes[pos] == 1
            &&& written(shapes, bytes, payload as int, pos + align_of(shapes, id), *inner)
        },
        (Shape::Text, Value::Text(text)) => {
            &&& points_inside(bytes, pos)
            &&& stored_count(bytes, pos) == text.len()
            &&& pointee(bytes, pos) + text.len() <= bytes.len()
            &&& bytes.subrange(pointee(bytes, pos), pointee(bytes, pos) + text.len()) == text
        },
        (Shape::Boxed { target }, Value::Boxed(inner)) => {
            let at = pointee(bytes, pos);
            &&& points_inside(bytes, pos)
            &&& at + size_of(shapes, target as int) <= bytes.len()
            &&& written(shapes, bytes, target as int, at, *inner)
            &&& forall|b: int|
                at <= b < at + size_of(shapes, target as int) ==> !#[trigger] owns(
                    shapes,
                    bytes,
                    target as int,
                    at,
                    *inner,
                    b,
                )
        },
        (Shape::Sequence { element }, Value::Sequence(items)) => {
            let at = pointee(bytes, pos);
            let stride = size_of(shapes, element as int);
            &&& points_inside(bytes, pos)
            &&& stored_count(bytes, pos) == items.len()
            &&& at + items.len() * stride <= bytes.len()
            &&& at % align_of(shapes, element as int) == 0
            &&& forall|i: int|
                0 <= i < items.len() ==> written(
                    shapes,
                    bytes,
                    element as int,
                    at + i * stride,
                    #[trigger] items[i],
                )
            &&& forall|i: int, b: int|
                0 <= i < items.len() && at <= b < at + items.len() * stride ==> !#[trigger] owns(
                    shapes,
                    bytes,
                    element as int,
                    at + i * stride,
                    items[i],
                    b,
                )
            &&& forall|i: int, j: int, b: int|
                0 <= i < j < items.len() ==> !(#[trigger] owns(
                    shapes,
                    bytes,
                    element as int,
                    at + i * stride,
                    items[i],
                    b,
                ) && #[trigger] owns(shapes, bytes, element as int, at + j * stride, items[j], b))
        },
        (Shape::Record { fields, .. }, Value::Record(parts)) => {
            &&& parts.len() == fields@.len()
            &&& forall|k: int|
                0 <= k < parts.len() ==> written(
                    shapes,
                    bytes,
                    fields@[k].shape as int,
                    pos + fields@[k].offset,
                    #[trigger] parts[k],
                )
            &&& forall|j: int, k: int, b: int|
                0 <= j < k < parts.len() ==> !(#[trigger] owns(
                    shapes,
                    bytes,
                    fields@[j].shape as int,
                    pos + fields@[j].offset,
                    parts[j],
                    b,
                ) && #[trigger] owns(
                    shapes,
                    bytes,
                    fields@[k].shape as int,
                    pos + fields@[k].offset,
                    parts[k],
                    b,
                ))
        },
        (Shape::Union { variants, .. }, Value::Variant(tag, inner)) => {
            &&& tag < variants@.len()
            &&& le_value(bytes, pos, tag_width(variants@.len() as int) as nat) == tag
            &&& written(shapes, bytes, variants@[tag as int] as int, pos, *inner)
        },
        _ => false,
    }
}

/// The archive holds the value `v` of shape `id` at `root`, and nothing that
/// the value owns lies in the value's own bytes.
pub open spec fn holds_value(shapes: Seq<Shape>, bytes: Seq<u8>, id: int, root: int, v: Value)
    -> bool {
    &&& written(shapes, bytes, id, root, v)
    &&& forall|b: int|
        root <= b < root + size_of(shapes, id) ==> !#[trigger] owns(shapes, bytes, id, root, v, b)
}

/// Every byte of a range that validating a value claims is a byte that the
/// value owns.
pub proof fn lemma_claimed_bytes_owned(
    shapes: Seq<Shape>,
    bytes: Seq<u8>,
    id: int,
    pos: int,
    v: Value,
    c: Span,
    b: int,
)
    requires
        walkable(shapes, bytes),
        written(shapes, bytes, id, pos, v),
        claimed(shapes, bytes, id, pos, v, c),
        c.contains(b),
    ensures
        owns(shapes, bytes, id, pos, v, b),
    decreases v,
{
    assert(shape_wf(shapes, id));
    match (shapes[id], v) {
        (Shape::Optional { payload }, Value::Present(inner)) => {
            lemma_claimed_bytes_owned(
                shapes,
                bytes,
                payload as int,
                pos + align_of(shapes, id),
                *inner,
                c,
                b,
            );
        },
        (Shape::Text, Value::Text(_)) => {},
        (Shape::Boxed { target }, Value::Boxed(inner)) => {
            let at = pointee(bytes, pos);
            lemma_layout_sound(shapes, target as int);
            if c != span_at(at, size_of(shapes, target as int)) {
                lemma_claimed_bytes_owned(shapes, bytes, target as int, at, *inner, c, b);
            }
        },
        (Shape::Sequence { element }, Value::Sequence(items)) => {
            let at = pointee(bytes, pos);
            let stride = size_of(shapes, element as int);
            lemma_layout_sound(shapes, element as int);
            assert(items.len() * stride >= 0) by (nonlinear_arith)
                requires
                    stride >= 0,
            ;
            if c != span_at(at, items.len() * stride) {
                let i = choose|i: int|
                    0 <= i < items.len() && claimed(
                        shapes,
                        bytes,
                        element as int,
                        at + i * stride,
                        #[trigger] items[i],
                        c,
                    );
                assert(written(shapes, bytes, element as int, at + i * stride, items[i]));
                lemma_claimed_bytes_owned(
                    shapes,
                    bytes,
                    element as int,
                    at + i * stride,
                    items[i],
                    c,
                    b,
                );
            }
        },
        (Shape::Record { fields, .. }, Value::Record(parts)) => {
            let k = choose|k: int|
                0 <= k < parts.len() && k < fields@.len() && claimed(
                    shapes,
                    bytes,
                    fields@[k].shape as int,
                    pos + fields@[k].offset,
                    #[trigger] parts[k],
                    c,
                );
            assert(written(
                shapes,
                bytes,
                fields@[k].shape as int,
                pos + fields@[k].offset,
                parts[k],
            ));
            lemma_claimed_bytes_owned(
                shapes,
                bytes,
                fields@[k].shape as int,
                pos + fields@[k].offset,
                parts[k],
                c,
                b,
            );
        },
        (Shape::Union { variants, .. }, Value::Variant(tag, inner)) => {
            lemma_claimed_bytes_owned(
                shapes,
                bytes,
                variants@[tag as int] as int,
                pos,
                *inner,
                c,
                b,
            );
        },
        _ => {},
    }
}

/// Some open or committed range holds byte `b`.
pub open spec fn covered(ancestors: Seq<Span>, committed: Set<Span>, b: int) -> bool {
    ||| exists|k: int| 0 <= k < ancestors.len() && (#[trigger] ancestors[k]).contains(b)
    ||| exists|c: Span| committed.contains(c) && #[trigger] c.contains(b)
}

/// No open and no committed range holds a byte that the value owns.
pub open spec fn untouched(
    shapes: Seq<Shape>,
    bytes: Seq<u8>,
    id: int,
    pos: int,
    v: Value,
    ancestors: Seq<Span>,
    committed: Set<Span>,
) -> bool {
    forall|b: int| #[trigger] owns(shapes, bytes, id, pos, v, b) ==> !covered(ancestors, committed, b)
}

/// The ranges that validating the fields `from`, .., `upto - 1` of a record
/// claims.
pub open spec fn fields_claimed(
    shapes: Seq<Shape>,
    bytes: Seq<u8>,
    id: int,
    pos: int,
    parts: Seq<Value>,
    from: int,
    upto: int,
) -> Set<Span> {
    Set::new(
        |c: Span|
            exists|j: int|
                0 <= from <= j < upto && j < parts.len() && j < shapes[id]->fields@.len()
                    && claimed(
                    shapes,
                    bytes,
                    shapes[id]->fields@[j].shape as int,
                    pos + shapes[id]->fields@[j].offset,
                    #[trigger] parts[j],
                    c,
                ),
    )
}

/// The ranges that validating the elements `from`, .., `upto - 1` of a
/// sequence claims.
pub open spec fn elements_claimed(
    shapes: Seq<Shape>,
    bytes: Seq<u8>,
    element: int,
    at: int,
    items: Seq<Value>,
    from: int,
    upto: int,
) -> Set<Span> {
    Set::new(
        |c: Span|
            exists|j: int|
                0 <= from <= j < upto && j < items.len() && claimed(
                    shapes,
                    bytes,
                    element,
                    at + j * size_of(shapes, element),
                    #[trigger] items[j],
                    c,
                ),
    )
}

/// How many parts a value has side by side.
pub open spec fn breadth(v: Value) -> nat {
    match v {
        Value::Sequence(items) => items.len(),
        Value::Record(parts) => parts.len(),
        _ => 0,
    }
}

/// A range none of whose bytes an open or committed range holds may be
/// claimed.
pub proof fn lemma_clear_range_granted(ancestors: Seq<Span>, committed: Set<Span>, span: Span)
    requires
        forall|b: int| span.contains(b) ==> !covered(ancestors, committed, b),
    ensures
        claim_fault(ancestors, committed, span) is None,
{
    if hits_committed(committed, span) {
        let c = choose|c: Span| committed.contains(c) && #[trigger] c.intersects(span);
        lemma_intersects_is_shared_byte(c, span);
        let b = choose|b: int| c.contains(b) && span.contains(b);
        assert(covered(ancestors, committed, b));
    }
    if hits_ancestor(ancestors, span) {
        let k = choose|k: int| 0 <= k < ancestors.len() && #[trigger] ancestors[k].intersects(span);
        lemma_intersects_is_shared_byte(ancestors[k], span);
        let b = choose|b: int| ancestors[k].contains(b) && span.contains(b);
        assert(covered(ancestors, committed, b));
    }
}

/// Round trip, first half: an archive that holds a value is accepted.
///
/// Where the archive holds the value `v` of shape `id` at `pos`, and no
/// open or committed range holds a byte that the value owns, the walk
/// succeeds and commits exactly the ranges of the value's owned parts.
pub proof fn lemma_written_is_accepted(
    shapes: Seq<Shape>,
    bytes: Seq<u8>,
    ancestors: Seq<Span>,
    committed: Set<Span>,
    id: int,
    pos: int,
    v: Value,
)
    requires
        walkable(shapes, bytes),
        written(shapes, bytes, id, pos, v),
        untouched(shapes, bytes, id, pos, v, ancestors, committed),
    ensures
        walk(shapes, bytes, ancestors, committed, id, pos) == Ok::<Set<Span>, ValidationError>(
            committed.union(claims(shapes, bytes, id, pos, v)),
        ),
    decreases v, breadth(v) + 1,
{
    let len = bytes.len() as int;
    let all = claims(shapes, bytes, id, pos, v);
    assert(shape_wf(shapes, id));
    match (shapes[id], v) {
        (Shape::Scalar { .. }, Value::Scalar(_)) => {
            assert(committed.union(all) =~= committed);
        },
        (Shape::Optional { .. }, Value::Absent) => {
            assert(committed.union(all) =~= committed);
        },
        (Shape::Optional { payload }, Value::Present(inner)) => {
            let at = pos + align_of(shapes, id);
            assert forall|b: int| #[trigger]
                owns(shapes, bytes, payload as int, at, *inner, b) implies !covered(
                ancestors,
                committed,
                b,
            ) by {
                assert(owns(shapes, bytes, id, pos, v, b));
            }
            lemma_written_is_accepted(
                shapes,
                bytes,
                ancestors,
                committed,
                payload as int,
                at,
                *inner,
            );
            assert(all =~= claims(shapes, bytes, payload as int, at, *inner));
            assert(walk_optional(shapes, bytes, ancestors, committed, id, pos) == Ok::<
                Set<Span>,
                ValidationError,
            >(committed.union(all)));
        },
        (Shape::Text, Value::Text(_)) => {
            let span = span_at(pointee(bytes, pos), stored_count(bytes, pos));
            assert forall|b: int| span.contains(b) implies !covered(ancestors, committed, b) by {
                assert(owns(shapes, bytes, id, pos, v, b));
            }
            lemma_clear_range_granted(ancestors, committed, span);
            assert(committed.union(all) =~= committed.insert(span));
        },
        (Shape::Boxed { target }, Value::Boxed(inner)) => {
            let at = pointee(bytes, pos);
            lemma_layout_sound(shapes, target as int);
            let span = span_at(at, size_of(shapes, target as int));
            assert forall|b: int| span.contains(b) implies !covered(ancestors, committed, b) by {
                assert(owns(shapes, bytes, id, pos, v, b));
            }
            lemma_clear_range_granted(ancestors, committed, span);
            let wider = ancestors.push(span);
            assert forall|b: int| #[trigger]
                owns(shapes, bytes, target as int, at, *inner, b) implies !covered(
                wider,
                committed,
                b,
            ) by {
                assert(owns(shapes, bytes, id, pos, v, b));
                assert(!covered(ancestors, committed, b));
                if exists|k: int| 0 <= k < wider.len() && (#[trigger] wider[k]).contains(b) {
                    let k = choose|k: int| 0 <= k < wider.len() && (#[trigger] wider[k]).contains(b);
                    if k < ancestors.len() {
                        assert(ancestors[k].contains(b));
                    }
                }
            }
            lemma_written_is_accepted(shapes, bytes, wider, committed, target as int, at, *inner);
            let inside = claims(shapes, bytes, target as int, at, *inner);
            assert(committed.union(all) =~= committed.union(inside).insert(span));
            assert(walk_boxed(shapes, bytes, ancestors, committed, id, pos) == Ok::<
                Set<Span>,
                ValidationError,
            >(committed.union(all)));
        },
        (Shape::Sequence { element }, Value::Sequence(items)) => {
            let at = pointee(bytes, pos);
            let stride = size_of(shapes, element as int);
            lemma_layout_sound(shapes, element as int);
            assert(items.len() * stride >= 0) by (nonlinear_arith)
                requires
                    stride >= 0,
            ;
            let span = span_at(at, items.len() * stride);
            assert forall|b: int| span.contains(b) implies !covered(ancestors, committed, b) by {
                assert(owns(shapes, bytes, id, pos, v, b));
            }
            lemma_clear_range_granted(ancestors, committed, span);
            let wider = ancestors.push(span);
            let done = elements_claimed(shapes, bytes, element as int, at, items, 0, items.len() as int);
            assert(committed.union(all) =~= committed.union(done).insert(span));
            if items.len() > 0 {
                assert(committed.union(
                    elements_claimed(shapes, bytes, element as int, at, items, 0, 0),
                ) =~= committed);
                lemma_elements_accepted(shapes, bytes, ancestors, committed, id, pos, items, 0);
            } else {
                assert(committed.union(done) =~= committed);
            }
            assert(walk_sequence(shapes, bytes, ancestors, committed, id, pos) == Ok::<
                Set<Span>,
                ValidationError,
            >(committed.union(all)));
        },
        (Shape::Record { fields, .. }, Value::Record(parts)) => {
            assert(committed.union(fields_claimed(shapes, bytes, id, pos, parts, 0, 0)) =~= committed);
            lemma_fields_accepted(shapes, bytes, ancestors, committed, id, pos, parts, 0);
            assert(all =~= fields_claimed(shapes, bytes, id, pos, parts, 0, parts.len() as int));
        },
        (Shape::Union { variants, .. }, Value::Variant(tag, inner)) => {
            let part = variants@[tag as int] as int;
            assert forall|b: int| #[trigger]
                owns(shapes, bytes, part, pos, *inner, b) implies !covered(
                ancestors,
                committed,
                b,
            ) by {
                assert(owns(shapes, bytes, id, pos, v, b));
            }
            lemma_written_is_accepted(shapes, bytes, ancestors, committed, part, pos, *inner);
            assert(all =~= claims(shapes, bytes, part, pos, *inner));
            assert(walk_union(shapes, bytes, ancestors, committed, id, pos) == Ok::<
                Set<Span>,
                ValidationError,
            >(committed.union(all)));
        },
        _ => {},
    }
}

/// The fields of a written record from field `k` on are accepted, one
/// after another, when the fields before them have been.
pub proof fn lemma_fields_accepted(
    shapes: Seq<Shape>,
    bytes: Seq<u8>,
    ancestors: Seq<Span>,
    committed: Set<Span>,
    id: int,
    pos: int,
    parts: Seq<Value>,
    k: int,
)
    requires
        walkable(shapes, bytes),
        0 <= id < shapes.len(),
        shapes[id] is Record,
        written(shapes, bytes, id, pos, Value::Record(parts)),
        untouched(shapes, bytes, id, pos, Value::Record(parts), ancestors, committed),
        0 <= k <= parts.len(),
    ensures
        walk_fields(
            shapes,
            bytes,
            ancestors,
            committed.union(fields_claimed(shapes, bytes, id, pos, parts, 0, k)),
            id,
            pos,
            k,
        ) == Ok::<Set<Span>, ValidationError>(
            committed.union(fields_claimed(shapes, bytes, id, pos, parts, 0, parts.len() as int)),
        ),
    decreases Value::Record(parts), parts.len() - k,
{
    let v = Value::Record(parts);
    let fields = shapes[id]->fields@;
    let so_far = committed.union(fields_claimed(shapes, bytes, id, pos, parts, 0, k));
    if k < parts.len() {
        let part = fields[k].shape as int;
        let at = pos + fields[k].offset;
        assert(written(shapes, bytes, part, at, parts[k]));
        assert forall|b: int| #[trigger] owns(shapes, bytes, part, at, parts[k], b) implies !covered(
            ancestors,
            so_far,
            b,
        ) by {
            assert(owns(shapes, bytes, id, pos, v, b));
            assert(!covered(ancestors, committed, b));
            if exists|c: Span| so_far.contains(c) && #[trigger] c.contains(b) {
                let c = choose|c: Span| so_far.contains(c) && #[trigger] c.contains(b);
                if !committed.contains(c) {
                    let j = choose|j: int|
                        0 <= j < k && j < parts.len() && j < fields.len() && claimed(
                            shapes,
                            bytes,
                            fields[j].shape as int,
                            pos + fields[j].offset,
                            #[trigger] parts[j],
                            c,
                        );
                    assert(written(
                        shapes,
                        bytes,
                        fields[j].shape as int,
                        pos + fields[j].offset,
                        parts[j],
                    ));
                    lemma_claimed_bytes_owned(
                        shapes,
                        bytes,
                        fields[j].shape as int,
                        pos + fields[j].offset,
                        parts[j],
                        c,
                        b,
                    );
                }
            }
        }
        lemma_written_is_accepted(shapes, bytes, ancestors, so_far, part, at, parts[k]);
        let next = so_far.union(claims(shapes, bytes, part, at, parts[k]));
        assert(next =~= committed.union(fields_claimed(shapes, bytes, id, pos, parts, 0, k + 1)));
        lemma_fields_accepted(shapes, bytes, ancestors, committed, id, pos, parts, k + 1);
    }
}

/// The elements of a written sequence from element `i` on are accepted,
/// one after another, when the elements before them have been.
pub proof fn lemma_elements_accepted(
    shapes: Seq<Shape>,
    bytes: Seq<u8>,
    ancestors: Seq<Span>,
    committed: Set<Span>,
    id: int,
    pos: int,
    items: Seq<Value>,
    i: int,
)
    requires
        walkable(shapes, bytes),
        0 <= id < shapes.len(),
        shapes[id] is Sequence,
        written(shapes, bytes, id, pos, Value::Sequence(items)),
        untouched(shapes, bytes, id, pos, Value::Sequence(items), ancestors, committed),
        0 <= i <= items.len(),
    ensures
        walk_elements(
            shapes,
            bytes,
            ancestors.push(
                span_at(
                    pointee(bytes, pos),
                    items.len() * size_of(shapes, shapes[id]->element as int),
                ),
            ),
            committed.union(
                elements_claimed(
                    shapes,
                    bytes,
                    shapes[id]->element as int,
                    pointee(bytes, pos),
                    items,
                    0,
                    i,
                ),
            ),
            shapes[id]->element as int,
            pointee(bytes, pos),
            i,
            items.len() as int,
        ) == Ok::<Set<Span>, ValidationError>(
            committed.union(
                elements_claimed(
                    shapes,
                    bytes,
                    shapes[id]->element as int,
                    pointee(bytes, pos),
                    items,
                    0,
                    items.len() as int,
                ),
            ),
        ),
    decreases Value::Sequence(items), items.len() - i,
{
    let v = Value::Sequence(items);
    let element = shapes[id]->element as int;
    let at = pointee(bytes, pos);
    let stride = size_of(shapes, element);
    assert(shape_wf(shapes, id));
    lemma_layout_sound(shapes, element);
    assert(items.len() * stride >= 0) by (nonlinear_arith)
        requires
            stride >= 0,
    ;
    let span = span_at(at, items.len() * stride);
    let wider = ancestors.push(span);
    let so_far = committed.union(elements_claimed(shapes, bytes, element, at, items, 0, i));
    if i < items.len() {
        let here = at + i * stride;
        assert(written(shapes, bytes, element, here, items[i]));
        assert forall|b: int| #[trigger]
            owns(shapes, bytes, element, here, items[i], b) implies !covered(wider, so_far, b) by {
            assert(owns(shapes, bytes, id, pos, v, b));
            assert(!covered(ancestors, committed, b));
            if exists|k: int| 0 <= k < wider.len() && (#[trigger] wider[k]).contains(b) {
                let k = choose|k: int| 0 <= k < wider.len() && (#[trigger] wider[k]).contains(b);
                if k < ancestors.len() {
                    assert(ancestors[k].contains(b));
                }
            }
            if exists|c: Span| so_far.contains(c) && #[trigger] c.contains(b) {
                let c = choose|c: Span| so_far.contains(c) && #[trigger] c.contains(b);
                if !committed.contains(c) {
                    let j = choose|j: int|
                        0 <= j < i && j < items.len() && claimed(
                            shapes,
                            bytes,
                            element,
                            at + j * stride,
                            #[trigger] items[j],
                            c,
                        );
                    assert(written(shapes, bytes, element, at + j * stride, items[j]));
                    lemma_claimed_bytes_owned(
                        shapes,
                        bytes,
                        element,
                        at + j * stride,
                        items[j],
                        c,
                        b,
                    );
                }
            }
        }
        lemma_written_is_accepted(shapes, bytes, wider, so_far, element, here, items[i]);
        let next = so_far.union(claims(shapes, bytes, element, here, items[i]));
        assert(next =~= committed.union(
            elements_claimed(shapes, bytes, element, at, items, 0, i + 1),
        ));
        lemma_elements_accepted(shapes, bytes, ancestors, committed, id, pos, items, i + 1);
    }
}

} // verus!
