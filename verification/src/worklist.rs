//! The walk as a list of work that is put off.
//!
//! The model descends into a value and comes back. Code that did the same
//! would use as much of the machine's stack as the archive is nested deep,
//! and an archive may be nested as deep as it is long. So the code keeps
//! its own list of what is left to do, and this module says what such a
//! list amounts to: which outcome it leads to, and after how many steps.

use vstd::prelude::*;
use crate::claims::{claim_fault, ClaimGuard};
use crate::error::ValidationError;
use crate::extent::extent_fault;
use crate::shape::{align_of, lemma_layout_sound, shape_wf, size_of, tag_width, Shape};
use crate::span::Span;
use crate::walk::{
    lemma_slack_shrinks, rank, slack, span_at, walk, walk_elements, walk_fields, walkable, Outcome,
};
use crate::wire::{le_value, resolved, stored_offset};

verus! {

/// One piece of work that the walk has put off.
#[derive(Debug)]
pub enum Task {
    /// Validate the value of shape `id` at `pos`.
    Visit { id: usize, pos: usize },
    /// Validate the fields of the record of shape `id` at `pos`, from field
    /// `k` on.
    Fields { id: usize, pos: usize, k: usize },
    /// Validate the elements of shape `element` of the sequence that starts
    /// at `base`, from element `i` on.
    Elements { element: usize, base: usize, i: usize, count: usize },
    /// Close the innermost open range and commit it.
    Close { guard: ClaimGuard },
}

/// The steps that validating shape `id` at `pos` takes, its parts counted
/// in, up to its end or to the first violation.
pub open spec fn steps(
    shapes: Seq<Shape>,
    bytes: Seq<u8>,
    ancestors: Seq<Span>,
    committed: Set<Span>,
    id: int,
    pos: int,
) -> nat
    decreases slack(bytes.len() as int, ancestors), 4 * rank(shapes, id) + 3, 0int,
    when walkable(shapes, bytes) && 0 <= id < shapes.len()
{
    let len = bytes.len() as int;
    if extent_fault(len, pos, size_of(shapes, id), align_of(shapes, id)) is Some {
        1
    } else {
        match shapes[id] {
            Shape::Scalar { .. } => 1,
            Shape::Text => 1,
            Shape::Optional { payload } => if bytes[pos] == 1 {
                proof {
                    assert(shape_wf(shapes, id));
                    lemma_layout_sound(shapes, payload as int);
                }
                1 + steps(
                    shapes,
                    bytes,
                    ancestors,
                    committed,
                    payload as int,
                    pos + align_of(shapes, id),
                )
            } else {
                1
            },
            Shape::Boxed { target } => {
                let at = pos + stored_offset(bytes, pos);
                let span = span_at(at, size_of(shapes, target as int));
                if resolved(pos, stored_offset(bytes, pos), len) is Some && extent_fault(
                    len,
                    at,
                    size_of(shapes, target as int),
                    align_of(shapes, target as int),
                ) is None && claim_fault(ancestors, committed, span) is None {
                    proof {
                        assert(shape_wf(shapes, id));
                        lemma_layout_sound(shapes, target as int);
                        lemma_slack_shrinks(len, ancestors, span);
                    }
                    1 + steps(shapes, bytes, ancestors.push(span), committed, target as int, at)
                        + if walk(shapes, bytes, ancestors.push(span), committed, target as int, at)
                        is Ok {
                        1nat
                    } else {
                        0nat
                    }
                } else {
                    1
                }
            },
            Shape::Sequence { element } => {
                let at = pos + stored_offset(bytes, pos);
                let count = le_value(bytes, pos + 4, 4) as int;
                let total = count * size_of(shapes, element as int);
                let span = span_at(at, total);
                if count > 0 && resolved(pos, stored_offset(bytes, pos), len) is Some && at + total
                    <= len && at % align_of(shapes, element as int) == 0 && claim_fault(
                    ancestors,
                    committed,
                    span,
                ) is None {
                    proof {
                        assert(shape_wf(shapes, id));
                        lemma_layout_sound(shapes, element as int);
                        lemma_slack_shrinks(len, ancestors, span);
                        assert(size_of(shapes, element as int) > 0 ==> total > 0)
                            by (nonlinear_arith)
                            requires
                                count > 0,
                                total == count * size_of(shapes, element as int),
                        ;
                    }
                    1 + steps_elements(
                        shapes,
                        bytes,
                        ancestors.push(span),
                        committed,
                        element as int,
                        at,
                        0,
                        count,
                    ) + if walk_elements(
                        shapes,
                        bytes,
                        ancestors.push(span),
                        committed,
                        element as int,
                        at,
                        0,
                        count,
                    ) is Ok {
                        1nat
                    } else {
                        0nat
                    }
                } else {
                    1
                }
            },
            Shape::Record { .. } => 1 + steps_fields(
                shapes,
                bytes,
                ancestors,
                committed,
                id,
                pos,
                0,
            ),
            Shape::Union { variants, .. } => {
                let tag = le_value(bytes, pos, tag_width(variants@.len() as int) as nat) as int;
                if tag < variants@.len() {
                    proof {
                        assert(shape_wf(shapes, id));
                    }
                    1 + steps(shapes, bytes, ancestors, committed, variants@[tag] as int, pos)
                } else {
                    1
                }
            },
        }
    }
}

/// The steps that validating the fields of a record takes, from field `k`
/// on.
pub open spec fn steps_fields(
    shapes: Seq<Shape>,
    bytes: Seq<u8>,
    ancestors: Seq<Span>,
    committed: Set<Span>,
    id: int,
    pos: int,
    k: int,
) -> nat
    decreases slack(bytes.len() as int, ancestors), 4 * rank(shapes, id) + 2, shapes[id]->fields@.len()
        - k,
    when walkable(shapes, bytes) && 0 <= id < shapes.len() && shapes[id] is Record && 0 <= k
{
    let fields = shapes[id]->fields@;
    if k >= fields.len() {
        1
    } else {
        proof {
            assert(shape_wf(shapes, id));
        }
        let part = fields[k].shape as int;
        let at = pos + fields[k].offset;
        1 + steps(shapes, bytes, ancestors, committed, part, at) + match walk(
            shapes,
            bytes,
            ancestors,
            committed,
            part,
            at,
        ) {
            Ok(next) => steps_fields(shapes, bytes, ancestors, next, id, pos, k + 1),
            Err(_) => 0,
        }
    }
}

/// The steps that validating the elements of a sequence takes, from
/// element `i` on. Elements without bytes all stand at one position, and
/// one of them is validated for all.
pub open spec fn steps_elements(
    shapes: Seq<Shape>,
    bytes: Seq<u8>,
    ancestors: Seq<Span>,
    committed: Set<Span>,
    element: int,
    base: int,
    i: int,
    count: int,
) -> nat
    decreases slack(bytes.len() as int, ancestors), 4 * rank(shapes, element) + 4, count - i,
    when walkable(shapes, bytes) && 0 <= element < shapes.len() && 0 <= i
{
    if i >= count {
        1
    } else if size_of(shapes, element) == 0 {
        1 + steps(shapes, bytes, ancestors, committed, element, base)
    } else {
        let at = base + i * size_of(shapes, element);
        1 + steps(shapes, bytes, ancestors, committed, element, at) + match walk(
            shapes,
            bytes,
            ancestors,
            committed,
            element,
            at,
        ) {
            Ok(next) => steps_elements(shapes, bytes, ancestors, next, element, base, i + 1, count),
            Err(_) => 0,
        }
    }
}

/// The outcome of one piece of work.
pub open spec fn task_outcome(
    shapes: Seq<Shape>,
    bytes: Seq<u8>,
    ancestors: Seq<Span>,
    committed: Set<Span>,
    task: Task,
) -> Outcome {
    match task {
        Task::Visit { id, pos } => walk(shapes, bytes, ancestors, committed, id as int, pos as int),
        Task::Fields { id, pos, k } => walk_fields(
            shapes,
            bytes,
            ancestors,
            committed,
            id as int,
            pos as int,
            k as int,
        ),
        Task::Elements { element, base, i, count } => walk_elements(
            shapes,
            bytes,
            ancestors,
            committed,
            element as int,
            base as int,
            i as int,
            count as int,
        ),
        Task::Close { guard } => Ok(committed.insert(guard.span())),
    }
}

/// The steps that one piece of work takes.
pub open spec fn task_steps(
    shapes: Seq<Shape>,
    bytes: Seq<u8>,
    ancestors: Seq<Span>,
    committed: Set<Span>,
    task: Task,
) -> nat {
    match task {
        Task::Visit { id, pos } => steps(shapes, bytes, ancestors, committed, id as int, pos as int),
        Task::Fields { id, pos, k } => steps_fields(
            shapes,
            bytes,
            ancestors,
            committed,
            id as int,
            pos as int,
            k as int,
        ),
        Task::Elements { element, base, i, count } => steps_elements(
            shapes,
            bytes,
            ancestors,
            committed,
            element as int,
            base as int,
            i as int,
            count as int,
        ),
        Task::Close { .. } => 1,
    }
}

/// The open ranges after one piece of work: closing takes the innermost
/// away, and everything else leaves them as they were.
pub open spec fn task_leaves(ancestors: Seq<Span>, task: Task) -> Seq<Span> {
    if task is Close {
        ancestors.drop_last()
    } else {
        ancestors
    }
}

/// The outcome that a list of work leads to. The work at the end of the
/// list is done first, and the first violation ends it all.
pub open spec fn run(
    shapes: Seq<Shape>,
    bytes: Seq<u8>,
    tasks: Seq<Task>,
    ancestors: Seq<Span>,
    committed: Set<Span>,
) -> Outcome
    decreases tasks.len(),
{
    if tasks.len() == 0 {
        Ok(committed)
    } else {
        match task_outcome(shapes, bytes, ancestors, committed, tasks.last()) {
            Err(e) => Err(e),
            Ok(next) => run(
                shapes,
                bytes,
                tasks.drop_last(),
                task_leaves(ancestors, tasks.last()),
                next,
            ),
        }
    }
}

/// The steps that a list of work takes, up to its end or to the first
/// violation.
pub open spec fn effort(
    shapes: Seq<Shape>,
    bytes: Seq<u8>,
    tasks: Seq<Task>,
    ancestors: Seq<Span>,
    committed: Set<Span>,
) -> nat
    decreases tasks.len(),
{
    if tasks.len() == 0 {
        0
    } else {
        task_steps(shapes, bytes, ancestors, committed, tasks.last()) + match task_outcome(
            shapes,
            bytes,
            ancestors,
            committed,
            tasks.last(),
        ) {
            Err(_) => 0,
            Ok(next) => effort(
                shapes,
                bytes,
                tasks.drop_last(),
                task_leaves(ancestors, tasks.last()),
                next,
            ),
        }
    }
}

/// Every piece of work names shapes of the table, and work on fields names
/// a record.
pub open spec fn tasks_ok(shapes: Seq<Shape>, tasks: Seq<Task>) -> bool {
    forall|t: int|
        0 <= t < tasks.len() ==> match #[trigger] tasks[t] {
            Task::Visit { id, .. } => id < shapes.len(),
            Task::Fields { id, .. } => id < shapes.len() && shapes[id as int] is Record,
            Task::Elements { element, .. } => element < shapes.len(),
            Task::Close { .. } => true,
        }
}

/// Each closing in the list holds the receipt of the range that is
/// innermost when its turn comes.
pub open spec fn closable(tasks: Seq<Task>, ancestors: Seq<Span>) -> bool
    decreases tasks.len(),
{
    if tasks.len() == 0 {
        true
    } else {
        &&& tasks.last() matches Task::Close { guard } ==> ancestors.len() == guard.depth() + 1
            && ancestors.last() == guard.span()
        &&& closable(tasks.drop_last(), task_leaves(ancestors, tasks.last()))
    }
}

/// The open ranges that are left when all closings in the list are done.
pub open spec fn unwound(tasks: Seq<Task>, ancestors: Seq<Span>) -> Seq<Span>
    decreases tasks.len(),
{
    if tasks.len() == 0 {
        ancestors
    } else {
        unwound(tasks.drop_last(), task_leaves(ancestors, tasks.last()))
    }
}

} // verus!
