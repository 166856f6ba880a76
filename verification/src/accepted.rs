//! What validation accepts is written: a walk that succeeds has found a
//! value in the archive, laid out as `written` asks.

use vstd::prelude::*;
use crate::claims::{claim_fault, claims_sound, hits_ancestor, hits_committed};
use crate::error::ValidationError;
use crate::extent::extent_fault;
use crate::shape::{align_of, lemma_layout_sound, shape_wf, size_of, tag_width, Shape};
use crate::span::Span;
use crate::walk::{
    lemma_slack_shrinks, rank, slack, span_at, walk, walk_boxed, walk_elements, walk_fields,
    walk_optional, walk_sequence, walk_text, walk_union, walkable,
};
use crate::wire::{le_value, resolved, stored_offset};
use crate::written::{
    claimed, claims, covered, elements_claimed, fields_claimed, owns, pointee, points_inside,
    stored_count, untouched, written, Value,
};

verus! {

/// The value that the bytes at `pos` show when they are read as shape `id`,
/// with `ancestors` open. Reading follows a reference only into a range that
/// lies in the archive and meets no open range, so that it comes to an end
/// on every archive; where the bytes show no value, the answer means
/// nothing.
pub open spec fn value_at(
    shapes: Seq<Shape>,
    bytes: Seq<u8>,
    ancestors: Seq<Span>,
    id: int,
    pos: int,
) -> Value
    decreases slack(bytes.len() as int, ancestors), rank(shapes, id),
    when walkable(shapes, bytes) && 0 <= id < shapes.len()
{
    let len = bytes.len() as int;
    if extent_fault(len, pos, size_of(shapes, id), align_of(shapes, id)) is Some {
        Value::Absent
    } else {
        match shapes[id] {
            Shape::Scalar { width } => Value::Scalar(le_value(bytes, pos, width as nat)),
            Shape::Optional { payload } => if bytes[pos] == 1 {
                proof {
                    assert(shape_wf(shapes, id));
                    lemma_layout_sound(shapes, payload as int);
                }
                Value::Present(
                    Box::new(
                        value_at(
                            shapes,
                            bytes,
                            ancestors,
                            payload as int,
                            pos + align_of(shapes, id),
                        ),
                    ),
                )
            } else {
                Value::Absent
            },
            Shape::Text => Value::Text(
                bytes.subrange(pointee(bytes, pos), pointee(bytes, pos) + stored_count(bytes, pos)),
            ),
            Shape::Boxed { target } => {
                let at = pointee(bytes, pos);
                let span = span_at(at, size_of(shapes, target as int));
                if points_inside(bytes, pos) && extent_fault(
                    len,
                    at,
                    size_of(shapes, target as int),
                    align_of(shapes, target as int),
                ) is None && !hits_ancestor(ancestors, span) {
                    proof {
                        assert(shape_wf(shapes, id));
                        lemma_layout_sound(shapes, target as int);
                        lemma_slack_shrinks(len, ancestors, span);
                    }
                    Value::Boxed(
                        Box::new(value_at(shapes, bytes, ancestors.push(span), target as int, at)),
                    )
                } else {
                    Value::Absent
                }
            },
            Shape::Sequence { element } => {
                let at = pointee(bytes, pos);
                let count = stored_count(bytes, pos);
                let stride = size_of(shapes, element as int);
                let span = span_at(at, count * stride);
                if count > 0 && points_inside(bytes, pos) && at + count * stride <= len
                    && !hits_ancestor(ancestors, span) {
                    proof {
                        assert(shape_wf(shapes, id));
                        lemma_layout_sound(shapes, element as int);
                        lemma_slack_shrinks(len, ancestors, span);
                        assert(stride > 0 ==> count * stride > 0) by (nonlinear_arith)
                            requires
                                count > 0,
                        ;
                    }
                    Value::Sequence(
                        Seq::new(
                            count as nat,
                            |i: int|
                                value_at(
                                    shapes,
                                    bytes,
                                    ancestors.push(span),
                                    element as int,
                                    at + i * stride,
                                ),
                        ),
                    )
                } else {
                    Value::Sequence(Seq::empty())
                }
            },
            Shape::Record { fields, .. } => {
                proof {
                    assert(shape_wf(shapes, id));
                }
                Value::Record(
                    Seq::new(
                        fields@.len(),
                        |k: int|
                            if 0 <= k < fields@.len() {
                                value_at(
                                    shapes,
                                    bytes,
                                    ancestors,
                                    fields@[k].shape as int,
                                    pos + fields@[k].offset,
                                )
                            } else {
                                Value::Absent
                            },
                    ),
                )
            },
            Shape::Union { variants, .. } => {
                let tag = le_value(bytes, pos, tag_width(variants@.len() as int) as nat);
                if tag < variants@.len() {
                    proof {
                        assert(shape_wf(shapes, id));
                    }
                    Value::Variant(
                        tag,
                        Box::new(value_at(shapes, bytes, ancestors, variants@[tag as int] as int, pos)),
                    )
                } else {
                    Value::Absent
                }
            },
        }
    }
}

/// The walk with `ancestors` open and `committed` committed has accepted
/// the value `v` of shape `id` at `pos` for what it is: the archive holds
/// the value, the value owns no byte that was claimed before, and the walk
/// has committed the ranges of its owned parts and no other.
pub open spec fn found(
    shapes: Seq<Shape>,
    bytes: Seq<u8>,
    ancestors: Seq<Span>,
    committed: Set<Span>,
    id: int,
    pos: int,
    v: Value,
) -> bool {
    &&& written(shapes, bytes, id, pos, v)
    &&& untouched(shapes, bytes, id, pos, v, ancestors, committed)
    &&& walk(shapes, bytes, ancestors, committed, id, pos) == Ok::<Set<Span>, ValidationError>(
        committed.union(claims(shapes, bytes, id, pos, v)),
    )
}

/// No byte of a range that may be claimed is held by an open or committed
/// range.
pub proof fn lemma_granted_range_clear(ancestors: Seq<Span>, committed: Set<Span>, span: Span)
    requires
        claim_fault(ancestors, committed, span) is None,
    ensures
        forall|b: int| span.contains(b) ==> !covered(ancestors, committed, b),
{
    assert forall|b: int| span.contains(b) implies !covered(ancestors, committed, b) by {
        if exists|k: int| 0 <= k < ancestors.len() && (#[trigger] ancestors[k]).contains(b) {
            let k = choose|k: int| 0 <= k < ancestors.len() && (#[trigger] ancestors[k]).contains(b);
            assert(ancestors[k].intersects(span));
        }
        if exists|c: Span| committed.contains(c) && #[trigger] c.contains(b) {
            let c = choose|c: Span| committed.contains(c) && #[trigger] c.contains(b);
            assert(c.intersects(span));
        }
    }
}

/// What more committed ranges leave untouched, fewer do.
pub proof fn lemma_untouched_by_fewer(
    shapes: Seq<Shape>,
    bytes: Seq<u8>,
    id: int,
    pos: int,
    v: Value,
    ancestors: Seq<Span>,
    committed: Set<Span>,
    more: Set<Span>,
)
    requires
        untouched(shapes, bytes, id, pos, v, ancestors, more),
        committed.subset_of(more),
    ensures
        untouched(shapes, bytes, id, pos, v, ancestors, committed),
{
    assert forall|b: int| #[trigger] owns(shapes, bytes, id, pos, v, b) implies !covered(
        ancestors,
        committed,
        b,
    ) by {
        assert(!covered(ancestors, more, b));
        if exists|c: Span| committed.contains(c) && #[trigger] c.contains(b) {
            let c = choose|c: Span| committed.contains(c) && #[trigger] c.contains(b);
            assert(more.contains(c));
        }
    }
}

/// What is untouched with one more range open is untouched without it, and
/// owns no byte of that range.
pub proof fn lemma_untouched_below(
    shapes: Seq<Shape>,
    bytes: Seq<u8>,
    id: int,
    pos: int,
    v: Value,
    ancestors: Seq<Span>,
    committed: Set<Span>,
    span: Span,
)
    requires
        untouched(shapes, bytes, id, pos, v, ancestors.push(span), committed),
    ensures
        untouched(shapes, bytes, id, pos, v, ancestors, committed),
        forall|b: int| span.contains(b) ==> !#[trigger] owns(shapes, bytes, id, pos, v, b),
{
    let wider = ancestors.push(span);
    assert forall|b: int| #[trigger] owns(shapes, bytes, id, pos, v, b) implies !covered(
        ancestors,
        committed,
        b,
    ) && !span.contains(b) by {
        assert(!covered(wider, committed, b));
        assert(wider[ancestors.len() as int] == span);
        if exists|k: int| 0 <= k < ancestors.len() && (#[trigger] ancestors[k]).contains(b) {
            let k = choose|k: int| 0 <= k < ancestors.len() && (#[trigger] ancestors[k]).contains(b);
            assert(wider[k].contains(b));
        }
    }
}

/// Every byte that a written value owns lies in a range that validating the
/// value claims.
pub proof fn lemma_owned_bytes_claimed(
    shapes: Seq<Shape>,
    bytes: Seq<u8>,
    id: int,
    pos: int,
    v: Value,
    b: int,
) -> (c: Span)
    requires
        walkable(shapes, bytes),
        written(shapes, bytes, id, pos, v),
        owns(shapes, bytes, id, pos, v, b),
    ensures
        claimed(shapes, bytes, id, pos, v, c),
        c.contains(b),
    decreases v,
{
    assert(shape_wf(shapes, id));
    match (shapes[id], v) {
        (Shape::Optional { payload }, Value::Present(inner)) => lemma_owned_bytes_claimed(
            shapes,
            bytes,
            payload as int,
            pos + align_of(shapes, id),
            *inner,
            b,
        ),
        (Shape::Text, Value::Text(_)) => span_at(pointee(bytes, pos), stored_count(bytes, pos)),
        (Shape::Boxed { target }, Value::Boxed(inner)) => {
            let at = pointee(bytes, pos);
            lemma_layout_sound(shapes, target as int);
            if at <= b < at + size_of(shapes, target as int) {
                span_at(at, size_of(shapes, target as int))
            } else {
                lemma_owned_bytes_claimed(shapes, bytes, target as int, at, *inner, b)
            }
        },
        (Shape::Sequence { element }, Value::Sequence(items)) => {
            let at = pointee(bytes, pos);
            let stride = size_of(shapes, element as int);
            lemma_layout_sound(shapes, element as int);
            assert(items.len() * stride >= 0) by (nonlinear_arith)
                requires
                    stride >= 0,
            ;
            if at <= b < at + items.len() * stride {
                span_at(at, items.len() * stride)
            } else {
                let i = choose|i: int|
                    0 <= i < items.len() && owns(
                        shapes,
                        bytes,
                        element as int,
                        at + i * stride,
                        #[trigger] items[i],
                        b,
                    );
                assert(written(shapes, bytes, element as int, at + i * stride, items[i]));
                lemma_owned_bytes_claimed(shapes, bytes, element as int, at + i * stride, items[i], b)
            }
        },
        (Shape::Record { fields, .. }, Value::Record(parts)) => {
            let k = choose|k: int|
                0 <= k < parts.len() && k < fields@.len() && owns(
                    shapes,
                    bytes,
                    fields@[k].shape as int,
                    pos + fields@[k].offset,
                    #[trigger] parts[k],
                    b,
                );
            assert(written(
                shapes,
                bytes,
                fields@[k].shape as int,
                pos + fields@[k].offset,
                parts[k],
            ));
            lemma_owned_bytes_claimed(
                shapes,
                bytes,
                fields@[k].shape as int,
                pos + fields@[k].offset,
                parts[k],
                b,
            )
        },
        (Shape::Union { variants, .. }, Value::Variant(tag, inner)) => lemma_owned_bytes_claimed(
            shapes,
            bytes,
            variants@[tag as int] as int,
            pos,
            *inner,
            b,
        ),
        _ => Span { start: 0, end: 0 },
    }
}

/// What validation accepts is written: where the walk succeeds, the bytes
/// show a value that the archive holds, that owns no byte claimed before,
/// and whose owned parts are what the walk has committed.
pub proof fn lemma_accepted_is_written(
    shapes: Seq<Shape>,
    bytes: Seq<u8>,
    ancestors: Seq<Span>,
    committed: Set<Span>,
    id: int,
    pos: int,
)
    requires
        walkable(shapes, bytes),
        0 <= id < shapes.len(),
        walk(shapes, bytes, ancestors, committed, id, pos) is Ok,
    ensures
        found(
            shapes,
            bytes,
            ancestors,
            committed,
            id,
            pos,
            value_at(shapes, bytes, ancestors, id, pos),
        ),
    decreases slack(bytes.len() as int, ancestors), 4 * rank(shapes, id) + 3, 0int,
{
    let len = bytes.len() as int;
    let v = value_at(shapes, bytes, ancestors, id, pos);
    let all = claims(shapes, bytes, id, pos, v);
    assert(shape_wf(shapes, id));
    match shapes[id] {
        Shape::Scalar { .. } => {
            assert(committed.union(all) =~= committed);
        },
        Shape::Optional { payload } => {
            assert(walk_optional(shapes, bytes, ancestors, committed, id, pos) is Ok);
            lemma_layout_sound(shapes, payload as int);
            if bytes[pos] == 1 {
                let at = pos + align_of(shapes, id);
                lemma_accepted_is_written(shapes, bytes, ancestors, committed, payload as int, at);
                let inner = value_at(shapes, bytes, ancestors, payload as int, at);
                assert(v == Value::Present(Box::new(inner)));
                assert forall|b: int| #[trigger] owns(shapes, bytes, id, pos, v, b) implies !covered(
                    ancestors,
                    committed,
                    b,
                ) by {
                    assert(owns(shapes, bytes, payload as int, at, inner, b));
                }
                assert(all =~= claims(shapes, bytes, payload as int, at, inner));
                } else {
                assert(bytes[pos] == 0);
                assert(v == Value::Absent);
                assert(committed.union(all) =~= committed);
                assert(written(shapes, bytes, id, pos, v));
                assert(untouched(shapes, bytes, id, pos, v, ancestors, committed));
                }
        },
        Shape::Text => {
            assert(walk_text(bytes, ancestors, committed, pos) is Ok);
            let span = span_at(pointee(bytes, pos), stored_count(bytes, pos));
            lemma_granted_range_clear(ancestors, committed, span);
            assert(committed.union(all) =~= committed.insert(span));
            assert forall|b: int| #[trigger] owns(shapes, bytes, id, pos, v, b) implies !covered(
                ancestors,
                committed,
                b,
            ) by {
                assert(span.contains(b));
            }
        },
        Shape::Boxed { target } => {
            assert(walk_boxed(shapes, bytes, ancestors, committed, id, pos) is Ok);
            let at = pointee(bytes, pos);
            lemma_layout_sound(shapes, target as int);
            let span = span_at(at, size_of(shapes, target as int));
            let wider = ancestors.push(span);
            lemma_granted_range_clear(ancestors, committed, span);
            lemma_slack_shrinks(len, ancestors, span);
            lemma_accepted_is_written(shapes, bytes, wider, committed, target as int, at);
            let inner = value_at(shapes, bytes, wider, target as int, at);
            assert(v == Value::Boxed(Box::new(inner)));
            lemma_untouched_below(
                shapes,
                bytes,
                target as int,
                at,
                inner,
                ancestors,
                committed,
                span,
            );
            assert forall|b: int| #[trigger] owns(shapes, bytes, id, pos, v, b) implies !covered(
                ancestors,
                committed,
                b,
            ) by {
                if !span.contains(b) {
                    assert(owns(shapes, bytes, target as int, at, inner, b));
                } else {
                    assert(span.contains(b));
                }
            }
            let inside = claims(shapes, bytes, target as int, at, inner);
            assert(committed.union(all) =~= committed.union(inside).insert(span));
        },
        Shape::Sequence { element } => {
            assert(walk_sequence(shapes, bytes, ancestors, committed, id, pos) is Ok);
            let at = pointee(bytes, pos);
            let count = stored_count(bytes, pos);
            let stride = size_of(shapes, element as int);
            lemma_layout_sound(shapes, element as int);
            assert(count * stride >= 0) by (nonlinear_arith)
                requires
                    stride >= 0,
                    count >= 0,
            ;
            let span = span_at(at, count * stride);
            let wider = ancestors.push(span);
            lemma_granted_range_clear(ancestors, committed, span);
            if count == 0 {
                assert(v == Value::Sequence(Seq::<Value>::empty()));
                assert(committed.union(all) =~= committed.insert(span));
            } else {
                lemma_slack_shrinks(len, ancestors, span);
                assert(stride > 0 ==> count * stride > 0) by (nonlinear_arith)
                    requires
                        count > 0,
                ;
                assert(v is Sequence);
                let items = v->Sequence_0;
                assert(items.len() == count);
                lemma_elements_are_written(
                    shapes,
                    bytes,
                    wider,
                    committed,
                    element as int,
                    at,
                    items,
                    0,
                );
                assert forall|i: int, b: int|
                    0 <= i < items.len() && at <= b < at + items.len() * stride implies !#[trigger] owns(
                    shapes,
                    bytes,
                    element as int,
                    at + i * stride,
                    items[i],
                    b,
                ) by {
                    lemma_untouched_below(
                        shapes,
                        bytes,
                        element as int,
                        at + i * stride,
                        items[i],
                        ancestors,
                        committed,
                        span,
                    );
                }
                assert forall|b: int| #[trigger] owns(shapes, bytes, id, pos, v, b) implies !covered(
                    ancestors,
                    committed,
                    b,
                ) by {
                    if !span.contains(b) {
                        let i = choose|i: int|
                            0 <= i < items.len() && owns(
                                shapes,
                                bytes,
                                element as int,
                                at + i * stride,
                                #[trigger] items[i],
                                b,
                            );
                        lemma_untouched_below(
                            shapes,
                            bytes,
                            element as int,
                            at + i * stride,
                            items[i],
                            ancestors,
                            committed,
                            span,
                        );
                    }
                }
                let done = elements_claimed(shapes, bytes, element as int, at, items, 0, count);
                assert(committed.union(all) =~= committed.union(done).insert(span));
            }
        },
        Shape::Record { fields, .. } => {
            assert(v is Record);
            let parts = v->Record_0;
            assert(parts.len() == fields@.len());
            lemma_fields_are_written(shapes, bytes, ancestors, committed, id, pos, parts, 0);
            assert forall|b: int| #[trigger] owns(shapes, bytes, id, pos, v, b) implies !covered(
                ancestors,
                committed,
                b,
            ) by {
                let k = choose|k: int|
                    0 <= k < parts.len() && k < fields@.len() && owns(
                        shapes,
                        bytes,
                        fields@[k].shape as int,
                        pos + fields@[k].offset,
                        #[trigger] parts[k],
                        b,
                    );
                assert(untouched(
                    shapes,
                    bytes,
                    fields@[k].shape as int,
                    pos + fields@[k].offset,
                    parts[k],
                    ancestors,
                    committed,
                ));
            }
            assert(all =~= fields_claimed(shapes, bytes, id, pos, parts, 0, parts.len() as int));
        },
        Shape::Union { variants, .. } => {
            assert(walk_union(shapes, bytes, ancestors, committed, id, pos) is Ok);
            let tag = le_value(bytes, pos, tag_width(variants@.len() as int) as nat);
            let part = variants@[tag as int] as int;
            lemma_accepted_is_written(shapes, bytes, ancestors, committed, part, pos);
            let inner = value_at(shapes, bytes, ancestors, part, pos);
            assert(v == Value::Variant(tag, Box::new(inner)));
            assert forall|b: int| #[trigger] owns(shapes, bytes, id, pos, v, b) implies !covered(
                ancestors,
                committed,
                b,
            ) by {
                assert(owns(shapes, bytes, part, pos, inner, b));
            }
            assert(all =~= claims(shapes, bytes, part, pos, inner));
        },
    }
}

/// The fields of a record from field `k` on, where the walk accepts them
/// one after another: each is written, none owns a byte claimed before or
/// owned by another, and their owned parts are what the walk has committed.
pub proof fn lemma_fields_are_written(
    shapes: Seq<Shape>,
    bytes: Seq<u8>,
    ancestors: Seq<Span>,
    committed: Set<Span>,
    id: int,
    pos: int,
    parts: Seq<Value>,
    k: int,
)
    requires
        walkable(shapes, bytes),
        0 <= id < shapes.len(),
        shapes[id] is Record,
        0 <= k <= parts.len() == shapes[id]->fields@.len(),
        forall|j: int|
            0 <= j < parts.len() ==> #[trigger] parts[j] == value_at(
                shapes,
                bytes,
                ancestors,
                shapes[id]->fields@[j].shape as int,
                pos + shapes[id]->fields@[j].offset,
            ),
        walk_fields(shapes, bytes, ancestors, committed, id, pos, k) is Ok,
    ensures
        forall|j: int|
            k <= j < parts.len() ==> written(
                shapes,
                bytes,
                shapes[id]->fields@[j].shape as int,
                pos + shapes[id]->fields@[j].offset,
                #[trigger] parts[j],
            ) && untouched(
                shapes,
                bytes,
                shapes[id]->fields@[j].shape as int,
                pos + shapes[id]->fields@[j].offset,
                parts[j],
                ancestors,
                committed,
            ),
        forall|i: int, j: int, b: int|
            k <= i < j < parts.len() ==> !(#[trigger] owns(
                shapes,
                bytes,
                shapes[id]->fields@[i].shape as int,
                pos + shapes[id]->fields@[i].offset,
                parts[i],
                b,
            ) && #[trigger] owns(
                shapes,
                bytes,
                shapes[id]->fields@[j].shape as int,
                pos + shapes[id]->fields@[j].offset,
                parts[j],
                b,
            )),
        walk_fields(shapes, bytes, ancestors, committed, id, pos, k) == Ok::<
            Set<Span>,
            ValidationError,
        >(committed.union(fields_claimed(shapes, bytes, id, pos, parts, k, parts.len() as int))),
    decreases slack(bytes.len() as int, ancestors), 4 * rank(shapes, id) + 2, parts.len() - k,
{
    let fields = shapes[id]->fields@;
    let n = parts.len() as int;
    assert(shape_wf(shapes, id));
    if k < n {
        let part = fields[k].shape as int;
        let at = pos + fields[k].offset;
        assert(parts[k] == value_at(shapes, bytes, ancestors, part, at));
        lemma_accepted_is_written(shapes, bytes, ancestors, committed, part, at);
        let next = committed.union(claims(shapes, bytes, part, at, parts[k]));
        lemma_fields_are_written(shapes, bytes, ancestors, next, id, pos, parts, k + 1);
        assert forall|j: int| k <= j < n implies written(
            shapes,
            bytes,
            fields[j].shape as int,
            pos + fields[j].offset,
            #[trigger] parts[j],
        ) && untouched(
            shapes,
            bytes,
            fields[j].shape as int,
            pos + fields[j].offset,
            parts[j],
            ancestors,
            committed,
        ) by {
            if j > k {
                lemma_untouched_by_fewer(
                    shapes,
                    bytes,
                    fields[j].shape as int,
                    pos + fields[j].offset,
                    parts[j],
                    ancestors,
                    committed,
                    next,
                );
            }
        }
        assert forall|i: int, j: int, b: int| k <= i < j < n implies !(#[trigger] owns(
            shapes,
            bytes,
            fields[i].shape as int,
            pos + fields[i].offset,
            parts[i],
            b,
        ) && #[trigger] owns(
            shapes,
            bytes,
            fields[j].shape as int,
            pos + fields[j].offset,
            parts[j],
            b,
        )) by {
            if i == k && owns(shapes, bytes, part, at, parts[k], b) {
                let c = lemma_owned_bytes_claimed(shapes, bytes, part, at, parts[k], b);
                assert(next.contains(c));
                assert(covered(ancestors, next, b));
                assert(untouched(
                    shapes,
                    bytes,
                    fields[j].shape as int,
                    pos + fields[j].offset,
                    parts[j],
                    ancestors,
                    next,
                ));
            }
        }
        assert(next.union(fields_claimed(shapes, bytes, id, pos, parts, k + 1, n))
            =~= committed.union(fields_claimed(shapes, bytes, id, pos, parts, k, n)));
    } else {
        assert(committed.union(fields_claimed(shapes, bytes, id, pos, parts, k, n)) =~= committed);
    }
}

/// The elements of a sequence from element `i` on, where the walk accepts
/// them one after another: each is written, none owns a byte claimed
/// before or owned by another, and their owned parts are what the walk has
/// committed.
pub proof fn lemma_elements_are_written(
    shapes: Seq<Shape>,
    bytes: Seq<u8>,
    ancestors: Seq<Span>,
    committed: Set<Span>,
    element: int,
    base: int,
    items: Seq<Value>,
    i: int,
)
    requires
        walkable(shapes, bytes),
        0 <= element < shapes.len(),
        0 <= i <= items.len(),
        forall|j: int|
            0 <= j < items.len() ==> #[trigger] items[j] == value_at(
                shapes,
                bytes,
                ancestors,
                element,
                base + j * size_of(shapes, element),
            ),
        walk_elements(shapes, bytes, ancestors, committed, element, base, i, items.len() as int)
            is Ok,
    ensures
        forall|j: int|
            i <= j < items.len() ==> written(
                shapes,
                bytes,
                element,
                base + j * size_of(shapes, element),
                #[trigger] items[j],
            ) && untouched(
                shapes,
                bytes,
                element,
                base + j * size_of(shapes, element),
                items[j],
                ancestors,
                committed,
            ),
        forall|j: int, k: int, b: int|
            i <= j < k < items.len() ==> !(#[trigger] owns(
                shapes,
                bytes,
                element,
                base + j * size_of(shapes, element),
                items[j],
                b,
            ) && #[trigger] owns(
                shapes,
                bytes,
                element,
                base + k * size_of(shapes, element),
                items[k],
                b,
            )),
        walk_elements(shapes, bytes, ancestors, committed, element, base, i, items.len() as int)
            == Ok::<Set<Span>, ValidationError>(
            committed.union(
                elements_claimed(shapes, bytes, element, base, items, i, items.len() as int),
            ),
        ),
    decreases slack(bytes.len() as int, ancestors), 4 * rank(shapes, element) + 4, items.len() - i,
{
    let n = items.len() as int;
    let stride = size_of(shapes, element);
    if i < n {
        let at = base + i * stride;
        assert(items[i] == value_at(shapes, bytes, ancestors, element, at));
        lemma_accepted_is_written(shapes, bytes, ancestors, committed, element, at);
        let next = committed.union(claims(shapes, bytes, element, at, items[i]));
        lemma_elements_are_written(shapes, bytes, ancestors, next, element, base, items, i + 1);
        assert forall|j: int| i <= j < n implies written(
            shapes,
            bytes,
            element,
            base + j * stride,
            #[trigger] items[j],
        ) && untouched(shapes, bytes, element, base + j * stride, items[j], ancestors, committed) by {
            if j > i {
                lemma_untouched_by_fewer(
                    shapes,
                    bytes,
                    element,
                    base + j * stride,
                    items[j],
                    ancestors,
                    committed,
                    next,
                );
            }
        }
        assert forall|j: int, k: int, b: int| i <= j < k < n implies !(#[trigger] owns(
            shapes,
            bytes,
            element,
            base + j * stride,
            items[j],
            b,
        ) && #[trigger] owns(shapes, bytes, element, base + k * stride, items[k], b)) by {
            if j == i && owns(shapes, bytes, element, at, items[i], b) {
                let c = lemma_owned_bytes_claimed(shapes, bytes, element, at, items[i], b);
                assert(next.contains(c));
                assert(covered(ancestors, next, b));
                assert(untouched(
                    shapes,
                    bytes,
                    element,
                    base + k * stride,
                    items[k],
                    ancestors,
                    next,
                ));
            }
        }
        assert(next.union(elements_claimed(shapes, bytes, element, base, items, i + 1, n))
            =~= committed.union(elements_claimed(shapes, bytes, element, base, items, i, n)));
    } else {
        assert(committed.union(elements_claimed(shapes, bytes, element, base, items, i, n))
            =~= committed);
    }
}

} // verus!
