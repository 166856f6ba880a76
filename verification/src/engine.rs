//! The walk itself: the code that computes what the model says.
//!
//! The code does not descend and come back as the model does. It keeps a
//! list of the work that is left and takes one piece of it at a time, so
//! that a deeply nested archive costs memory on the heap and none on the
//! machine's stack.

use vstd::prelude::*;
use crate::claims::ArchiveContext;
use crate::error::ValidationError;
use crate::extent::{check_extent, extent_fault};
use crate::shape::{
    align_of, lemma_layout_sound, lemma_multiple_reaches_align, shape_wf, size_of, tag_width_of,
    Field, Registry, Shape,
};
use crate::span::Span;
use crate::walk::{
    lemma_empty_elements_alike, lemma_empty_value_claims_nothing, span_at, walk, walk_boxed,
    walk_elements, walk_optional, walk_owned, walk_sequence, walk_union, walkable, Outcome,
};
use crate::wire::{read_offset, read_u16, read_u32, read_u8, resolve};
use crate::worklist::{
    closable, effort, run, task_leaves, task_outcome, task_steps, tasks_ok, unwound, Task,
};

verus! {

/// The answer `r`, and the committed ranges left behind, are what the model
/// foretells: on success the same set, on failure the same violation.
pub open spec fn agrees(
    r: Result<(), ValidationError>,
    committed: Set<Span>,
    outcome: Outcome,
) -> bool {
    match outcome {
        Ok(c) => r is Ok && committed == c,
        Err(e) => r == Err::<(), ValidationError>(e),
    }
}

/// What a list of work with `task` at its end amounts to, in terms of the
/// list without it.
pub proof fn lemma_work_unfolds(
    shapes: Seq<Shape>,
    bytes: Seq<u8>,
    rest: Seq<Task>,
    task: Task,
    ancestors: Seq<Span>,
    committed: Set<Span>,
)
    ensures
        run(shapes, bytes, rest.push(task), ancestors, committed) == match task_outcome(
            shapes,
            bytes,
            ancestors,
            committed,
            task,
        ) {
            Err(e) => Err(e),
            Ok(next) => run(shapes, bytes, rest, task_leaves(ancestors, task), next),
        },
        effort(shapes, bytes, rest.push(task), ancestors, committed) == task_steps(
            shapes,
            bytes,
            ancestors,
            committed,
            task,
        ) + match task_outcome(shapes, bytes, ancestors, committed, task) {
            Err(_) => 0,
            Ok(next) => effort(shapes, bytes, rest, task_leaves(ancestors, task), next),
        },
        closable(rest.push(task), ancestors) == ((task matches Task::Close { guard }
            ==> ancestors.len() == guard.depth() + 1 && ancestors.last() == guard.span())
            && closable(rest, task_leaves(ancestors, task))),
        unwound(rest.push(task), ancestors) == unwound(rest, task_leaves(ancestors, task)),
        tasks_ok(shapes, rest.push(task)) == (tasks_ok(shapes, rest) && tasks_ok(
            shapes,
            Seq::<Task>::empty().push(task),
        )),
{
    let all = rest.push(task);
    assert(all.drop_last() =~= rest);
    assert(all.last() == task);
    let one = Seq::<Task>::empty().push(task);
    if tasks_ok(shapes, all) {
        assert forall|t: int| 0 <= t < rest.len() implies match #[trigger] rest[t] {
            Task::Visit { id, .. } => id < shapes.len(),
            Task::Fields { id, .. } => id < shapes.len() && shapes[id as int] is Record,
            Task::Elements { element, .. } => element < shapes.len(),
            Task::Close { .. } => true,
        } by {
            assert(all[t] == rest[t]);
        }
        assert(all[rest.len() as int] == one[0]);
    }
    if tasks_ok(shapes, rest) && tasks_ok(shapes, one) {
        assert forall|t: int| 0 <= t < all.len() implies match #[trigger] all[t] {
            Task::Visit { id, .. } => id < shapes.len(),
            Task::Fields { id, .. } => id < shapes.len() && shapes[id as int] is Record,
            Task::Elements { element, .. } => element < shapes.len(),
            Task::Close { .. } => true,
        } by {
            if t < rest.len() {
                assert(all[t] == rest[t]);
            } else {
                assert(all[t] == one[0]);
            }
        }
    }
}

/// One step has taken `task` off the end of the list and done its part of
/// it. Where the step found a violation, that is the outcome of the whole
/// list, and nothing was changed. Where it found none, the list that is
/// left leads to the same outcome in fewer steps, and is in order as the
/// list before it was.
pub open spec fn stepped(
    shapes: Seq<Shape>,
    bytes: Seq<u8>,
    rest: Seq<Task>,
    task: Task,
    before: &ArchiveContext,
    left: Seq<Task>,
    after: &ArchiveContext,
    failure: Option<ValidationError>,
) -> bool {
    let all = rest.push(task);
    &&& after.wf()
    &&& after.archive() == before.archive()
    &&& before.committed().subset_of(after.committed())
    &&& match failure {
        Some(e) => {
            &&& run(shapes, bytes, all, before.ancestors(), before.committed()) == Err::<
                Set<Span>,
                ValidationError,
            >(e)
            &&& left == rest
            &&& after.ancestors() == before.ancestors()
        },
        None => {
            &&& run(shapes, bytes, left, after.ancestors(), after.committed()) == run(
                shapes,
                bytes,
                all,
                before.ancestors(),
                before.committed(),
            )
            &&& effort(shapes, bytes, left, after.ancestors(), after.committed()) < effort(
                shapes,
                bytes,
                all,
                before.ancestors(),
                before.committed(),
            )
            &&& tasks_ok(shapes, left)
            &&& closable(left, after.ancestors())
            &&& unwound(left, after.ancestors()) == unwound(all, before.ancestors())
        },
    }
}

/// The list is in order for a step: the table and the archive are sound,
/// every piece of work names what exists, and every closing will find its
/// range.
pub open spec fn ready(shapes: Seq<Shape>, tasks: Seq<Task>, ctx: &ArchiveContext) -> bool {
    &&& ctx.wf()
    &&& walkable(shapes, ctx.archive())
    &&& tasks_ok(shapes, tasks)
    &&& closable(tasks, ctx.ancestors())
}

impl<'a> ArchiveContext<'a> {
    /// Validates a value of shape `id` at `pos`, as part of whatever is open
    /// in this context. Whatever the answer, the stack of open ranges is
    /// left as it was found and no committed range is forgotten; the ranges
    /// that a violation leaves committed beyond those are of no further use.
    pub fn validate_at(&mut self, reg: &Registry, id: usize, pos: usize) -> (r: Result<
        (),
        ValidationError,
    >)
        requires
            reg.wf(),
            id < reg@.len(),
            old(self).wf(),
        ensures
            final(self).wf(),
            final(self).archive() == old(self).archive(),
            final(self).ancestors() == old(self).ancestors(),
            old(self).committed().subset_of(final(self).committed()),
            agrees(
                r,
                final(self).committed(),
                walk(
                    reg@,
                    old(self).archive(),
                    old(self).ancestors(),
                    old(self).committed(),
                    id as int,
                    pos as int,
                ),
            ),
    {
        let ghost archive = self.archive();
        let ghost floor = self.ancestors();
        let ghost start = self.committed();
        let ghost goal = walk(reg@, archive, floor, self.committed(), id as int, pos as int);
        let mut tasks: Vec<Task> = Vec::new();
        tasks.push(Task::Visit { id, pos });
        let mut failure: Option<ValidationError> = None;
        proof {
            reg.lemma_wf();
            lemma_work_unfolds(
                reg@,
                archive,
                Seq::<Task>::empty(),
                Task::Visit { id, pos },
                floor,
                self.committed(),
            );
            assert(tasks@ =~= Seq::<Task>::empty().push(Task::Visit { id, pos }));
        }
        while tasks.len() > 0
            invariant_except_break
                failure is None,
                run(reg@, archive, tasks@, self.ancestors(), self.committed()) == goal,
            invariant
                reg.wf(),
                self.archive() == archive,
                start.subset_of(self.committed()),
                ready(reg@, tasks@, self),
                unwound(tasks@, self.ancestors()) == floor,
            ensures
                reg.wf(),
                self.wf(),
                self.archive() == archive,
                start.subset_of(self.committed()),
                closable(tasks@, self.ancestors()),
                unwound(tasks@, self.ancestors()) == floor,
                match failure {
                    Some(e) => goal == Err::<Set<Span>, ValidationError>(e),
                    None => tasks@.len() == 0 && goal == Ok::<Set<Span>, ValidationError>(
                        self.committed(),
                    ),
                },
            decreases effort(reg@, archive, tasks@, self.ancestors(), self.committed()),
        {
            let ghost all = tasks@;
            let task = match tasks.pop() {
                Some(task) => task,
                None => {
                    break ;
                },
            };
            assert(all =~= tasks@.push(task));
            proof {
                lemma_work_unfolds(
                    reg@,
                    archive,
                    tasks@,
                    task,
                    self.ancestors(),
                    self.committed(),
                );
            }
            failure = match task {
                Task::Visit { id, pos } => self.step_visit(reg, id, pos, &mut tasks),
                Task::Fields { id, pos, k } => self.step_fields(reg, id, pos, k, &mut tasks),
                Task::Elements { element, base, i, count } => self.step_elements(
                    reg,
                    element,
                    base,
                    i,
                    count,
                    &mut tasks,
                ),
                Task::Close { guard } => {
                    self.exit(guard);
                    None
                },
            };
            if failure.is_some() {
                break ;
            }
        }
        // A violation leaves ranges open; they are closed from the
        // innermost out, which leaves the stack as it was found.
        while tasks.len() > 0
            invariant
                self.wf(),
                self.archive() == archive,
                start.subset_of(self.committed()),
                closable(tasks@, self.ancestors()),
                unwound(tasks@, self.ancestors()) == floor,
                match failure {
                    Some(e) => goal == Err::<Set<Span>, ValidationError>(e),
                    None => tasks@.len() == 0 && goal == Ok::<Set<Span>, ValidationError>(
                        self.committed(),
                    ),
                },
            decreases tasks@.len(),
        {
            let ghost all = tasks@;
            let task = tasks.pop();
            proof {
                assert(all =~= tasks@.push(all.last()));
                lemma_work_unfolds(
                    reg@,
                    archive,
                    tasks@,
                    all.last(),
                    self.ancestors(),
                    self.committed(),
                );
            }
            match task {
                Some(Task::Close { guard }) => {
                    self.exit(guard);
                },
                _ => {},
            }
        }
        match failure {
            Some(e) => Err(e),
            None => Ok(()),
        }
    }

    /// The step for a value of shape `id` at `pos`: its bounds and
    /// alignment, and then what its kind of shape asks for.
    fn step_visit(&mut self, reg: &Registry, id: usize, pos: usize, tasks: &mut Vec<Task>) -> (failure:
        Option<ValidationError>)
        requires
            reg.wf(),
            id < reg@.len(),
            ready(reg@, old(tasks)@, old(self)),
        ensures
            stepped(
                reg@,
                old(self).archive(),
                old(tasks)@,
                Task::Visit { id, pos },
                old(self),
                final(tasks)@,
                final(self),
                failure,
            ),
    {
        proof {
            reg.lemma_wf();
            lemma_work_unfolds(
                reg@,
                self.archive(),
                tasks@,
                Task::Visit { id, pos },
                self.ancestors(),
                self.committed(),
            );
        }
        let bytes: &[u8] = self.bytes();
        let size: usize = reg.size_of(id);
        let align: usize = reg.align_of(id);
        match check_extent(bytes.len(), pos, size, align) {
            Err(e) => {
                return Some(e);
            },
            Ok(_) => {},
        }
        match reg.shape(id) {
            Shape::Scalar { .. } => None,
            Shape::Optional { payload } => self.step_optional(reg, id, *payload, pos, tasks),
            Shape::Text => self.step_text(reg, id, pos, tasks),
            Shape::Boxed { target } => self.step_boxed(reg, id, *target, pos, tasks),
            Shape::Sequence { element } => self.step_sequence(reg, id, *element, pos, tasks),
            Shape::Record { .. } => {
                tasks.push(Task::Fields { id, pos, k: 0 });
                proof {
                    lemma_work_unfolds(
                        reg@,
                        self.archive(),
                        old(tasks)@,
                        Task::Fields { id, pos, k: 0 },
                        self.ancestors(),
                        self.committed(),
                    );
                }
                None
            },
            Shape::Union { variants, .. } => self.step_union(reg, id, variants, pos, tasks),
        }
    }

    /// The tag of an optional value; its payload is put on the list where
    /// the tag says that there is one.
    fn step_optional(
        &mut self,
        reg: &Registry,
        id: usize,
        payload: usize,
        pos: usize,
        tasks: &mut Vec<Task>,
    ) -> (failure: Option<ValidationError>)
        requires
            reg.wf(),
            id < reg@.len(),
            reg@[id as int] is Optional,
            reg@[id as int]->payload == payload,
            ready(reg@, old(tasks)@, old(self)),
            extent_fault(
                old(self).archive().len() as int,
                pos as int,
                size_of(reg@, id as int),
                align_of(reg@, id as int),
            ) is None,
        ensures
            stepped(
                reg@,
                old(self).archive(),
                old(tasks)@,
                Task::Visit { id, pos },
                old(self),
                final(tasks)@,
                final(self),
                failure,
            ),
    {
        proof {
            reg.lemma_wf();
            assert(shape_wf(reg@, id as int));
            lemma_layout_sound(reg@, payload as int);
            lemma_work_unfolds(
                reg@,
                self.archive(),
                tasks@,
                Task::Visit { id, pos },
                self.ancestors(),
                self.committed(),
            );
            assert(walk(
                reg@,
                self.archive(),
                self.ancestors(),
                self.committed(),
                id as int,
                pos as int,
            ) == walk_optional(
                reg@,
                self.archive(),
                self.ancestors(),
                self.committed(),
                id as int,
                pos as int,
            ));
        }
        let bytes: &[u8] = self.bytes();
        let tag: u8 = bytes[pos];
        if tag == 0 {
            None
        } else if tag == 1 {
            let gap: usize = reg.align_of(id);
            tasks.push(Task::Visit { id: payload, pos: pos + gap });
            proof {
                lemma_work_unfolds(
                    reg@,
                    self.archive(),
                    old(tasks)@,
                    Task::Visit { id: payload, pos: (pos + gap) as usize },
                    self.ancestors(),
                    self.committed(),
                );
            }
            None
        } else {
            Some(ValidationError::InvalidDiscriminant)
        }
    }

    /// The reference of owned bytes, and the claim on the bytes it points
    /// to. There is nothing inside them to put on the list.
    fn step_text(&mut self, reg: &Registry, id: usize, pos: usize, tasks: &mut Vec<Task>) -> (failure:
        Option<ValidationError>)
        requires
            reg.wf(),
            id < reg@.len(),
            reg@[id as int] is Text,
            ready(reg@, old(tasks)@, old(self)),
            extent_fault(
                old(self).archive().len() as int,
                pos as int,
                size_of(reg@, id as int),
                align_of(reg@, id as int),
            ) is None,
        ensures
            stepped(
                reg@,
                old(self).archive(),
                old(tasks)@,
                Task::Visit { id, pos },
                old(self),
                final(tasks)@,
                final(self),
                failure,
            ),
    {
        proof {
            lemma_work_unfolds(
                reg@,
                self.archive(),
                tasks@,
                Task::Visit { id, pos },
                self.ancestors(),
                self.committed(),
            );
        }
        let bytes: &[u8] = self.bytes();
        let len: usize = bytes.len();
        let stored: i32 = read_offset(bytes, pos);
        let at: usize = match resolve(pos, stored, len) {
            Err(e) => {
                return Some(e);
            },
            Ok(at) => at,
        };
        let count: usize = read_u32(bytes, pos + 4) as usize;
        if count > len - at {
            return Some(ValidationError::OutOfBounds);
        }
        let span = Span::new(at, at + count);
        assert(span == span_at(at as int, count as int));
        match self.enter(span) {
            Err(e) => Some(e),
            Ok(guard) => {
                self.exit(guard);
                assert(self.ancestors() =~= old(self).ancestors());
                None
            },
        }
    }

    /// The reference of one owned value and the claim on the value's
    /// range. The value is put on the list, and behind it the closing of
    /// its range.
    fn step_boxed(
        &mut self,
        reg: &Registry,
        id: usize,
        target: usize,
        pos: usize,
        tasks: &mut Vec<Task>,
    ) -> (failure: Option<ValidationError>)
        requires
            reg.wf(),
            id < reg@.len(),
            reg@[id as int] is Boxed,
            reg@[id as int]->target == target,
            ready(reg@, old(tasks)@, old(self)),
            extent_fault(
                old(self).archive().len() as int,
                pos as int,
                size_of(reg@, id as int),
                align_of(reg@, id as int),
            ) is None,
        ensures
            stepped(
                reg@,
                old(self).archive(),
                old(tasks)@,
                Task::Visit { id, pos },
                old(self),
                final(tasks)@,
                final(self),
                failure,
            ),
    {
        proof {
            reg.lemma_wf();
            assert(shape_wf(reg@, id as int));
            lemma_layout_sound(reg@, target as int);
            lemma_work_unfolds(
                reg@,
                self.archive(),
                tasks@,
                Task::Visit { id, pos },
                self.ancestors(),
                self.committed(),
            );
            assert(walk(
                reg@,
                self.archive(),
                self.ancestors(),
                self.committed(),
                id as int,
                pos as int,
            ) == walk_boxed(
                reg@,
                self.archive(),
                self.ancestors(),
                self.committed(),
                id as int,
                pos as int,
            ));
        }
        let bytes: &[u8] = self.bytes();
        let len: usize = bytes.len();
        let stored: i32 = read_offset(bytes, pos);
        let at: usize = match resolve(pos, stored, len) {
            Err(e) => {
                return Some(e);
            },
            Ok(at) => at,
        };
        let size: usize = reg.size_of(target);
        let align: usize = reg.align_of(target);
        match check_extent(len, at, size, align) {
            Err(e) => {
                return Some(e);
            },
            Ok(_) => {},
        }
        let span = Span::new(at, at + size);
        assert(span == span_at(at as int, size as int));
        let guard = match self.enter(span) {
            Err(e) => {
                return Some(e);
            },
            Ok(guard) => guard,
        };
        let ghost close = Task::Close { guard };
        let ghost visit = Task::Visit { id: target, pos: at };
        tasks.push(Task::Close { guard });
        tasks.push(Task::Visit { id: target, pos: at });
        proof {
            let rest = old(tasks)@;
            let wider = self.ancestors();
            assert(wider.drop_last() =~= old(self).ancestors());
            lemma_work_unfolds(reg@, self.archive(), rest.push(close), visit, wider, self.committed());
            lemma_work_unfolds(reg@, self.archive(), rest, close, wider, self.committed());
            match walk(reg@, self.archive(), wider, self.committed(), target as int, at as int) {
                Ok(inner) => {
                    lemma_work_unfolds(reg@, self.archive(), rest, close, wider, inner);
                },
                Err(_) => {},
            }
        }
        None
    }

    /// The reference of a sequence and the claim on the range of its
    /// elements. The elements are put on the list, and behind them the
    /// closing of their range.
    fn step_sequence(
        &mut self,
        reg: &Registry,
        id: usize,
        element: usize,
        pos: usize,
        tasks: &mut Vec<Task>,
    ) -> (failure: Option<ValidationError>)
        requires
            reg.wf(),
            id < reg@.len(),
            reg@[id as int] is Sequence,
            reg@[id as int]->element == element,
            ready(reg@, old(tasks)@, old(self)),
            extent_fault(
                old(self).archive().len() as int,
                pos as int,
                size_of(reg@, id as int),
                align_of(reg@, id as int),
            ) is None,
        ensures
            stepped(
                reg@,
                old(self).archive(),
                old(tasks)@,
                Task::Visit { id, pos },
                old(self),
                final(tasks)@,
                final(self),
                failure,
            ),
    {
        proof {
            reg.lemma_wf();
            assert(shape_wf(reg@, id as int));
            lemma_layout_sound(reg@, element as int);
            lemma_work_unfolds(
                reg@,
                self.archive(),
                tasks@,
                Task::Visit { id, pos },
                self.ancestors(),
                self.committed(),
            );
            assert(walk(
                reg@,
                self.archive(),
                self.ancestors(),
                self.committed(),
                id as int,
                pos as int,
            ) == walk_sequence(
                reg@,
                self.archive(),
                self.ancestors(),
                self.committed(),
                id as int,
                pos as int,
            ));
        }
        let bytes: &[u8] = self.bytes();
        let len: usize = bytes.len();
        let stored: i32 = read_offset(bytes, pos);
        let at: usize = match resolve(pos, stored, len) {
            Err(e) => {
                return Some(e);
            },
            Ok(at) => at,
        };
        let count: usize = read_u32(bytes, pos + 4) as usize;
        let stride: usize = reg.size_of(element);
        let align: usize = reg.align_of(element);
        let total: usize = match count.checked_mul(stride) {
            None => {
                return Some(ValidationError::OutOfBounds);
            },
            Some(total) => total,
        };
        if total > len - at {
            return Some(ValidationError::OutOfBounds);
        }
        if at % align != 0 {
            return Some(ValidationError::Misaligned);
        }
        let span = Span::new(at, at + total);
        assert(span == span_at(at as int, count * stride));
        let guard = match self.enter(span) {
            Err(e) => {
                return Some(e);
            },
            Ok(guard) => guard,
        };
        if count == 0 {
            self.exit(guard);
            assert(self.ancestors() =~= old(self).ancestors());
            return None;
        }
        let ghost close = Task::Close { guard };
        let ghost elements = Task::Elements { element, base: at, i: 0, count };
        tasks.push(Task::Close { guard });
        tasks.push(Task::Elements { element, base: at, i: 0, count });
        proof {
            let rest = old(tasks)@;
            let wider = self.ancestors();
            assert(wider.drop_last() =~= old(self).ancestors());
            lemma_work_unfolds(
                reg@,
                self.archive(),
                rest.push(close),
                elements,
                wider,
                self.committed(),
            );
            lemma_work_unfolds(reg@, self.archive(), rest, close, wider, self.committed());
            match walk_elements(
                reg@,
                self.archive(),
                wider,
                self.committed(),
                element as int,
                at as int,
                0,
                count as int,
            ) {
                Ok(inner) => {
                    lemma_work_unfolds(reg@, self.archive(), rest, close, wider, inner);
                },
                Err(_) => {},
            }
        }
        None
    }

    /// The tag of a union; the variant that it selects is put on the list.
    fn step_union(
        &mut self,
        reg: &Registry,
        id: usize,
        variants: &Vec<usize>,
        pos: usize,
        tasks: &mut Vec<Task>,
    ) -> (failure: Option<ValidationError>)
        requires
            reg.wf(),
            id < reg@.len(),
            reg@[id as int] is Union,
            reg@[id as int]->variants@ == variants@,
            ready(reg@, old(tasks)@, old(self)),
            extent_fault(
                old(self).archive().len() as int,
                pos as int,
                size_of(reg@, id as int),
                align_of(reg@, id as int),
            ) is None,
        ensures
            stepped(
                reg@,
                old(self).archive(),
                old(tasks)@,
                Task::Visit { id, pos },
                old(self),
                final(tasks)@,
                final(self),
                failure,
            ),
    {
        proof {
            reg.lemma_wf();
            assert(shape_wf(reg@, id as int));
            lemma_layout_sound(reg@, id as int);
            lemma_multiple_reaches_align(size_of(reg@, id as int), align_of(reg@, id as int));
            lemma_work_unfolds(
                reg@,
                self.archive(),
                tasks@,
                Task::Visit { id, pos },
                self.ancestors(),
                self.committed(),
            );
            assert(walk(
                reg@,
                self.archive(),
                self.ancestors(),
                self.committed(),
                id as int,
                pos as int,
            ) == walk_union(
                reg@,
                self.archive(),
                self.ancestors(),
                self.committed(),
                id as int,
                pos as int,
            ));
        }
        let bytes: &[u8] = self.bytes();
        let width: usize = tag_width_of(variants.len());
        let tag: usize = if width == 1 {
            read_u8(bytes, pos) as usize
        } else if width == 2 {
            read_u16(bytes, pos) as usize
        } else {
            read_u32(bytes, pos) as usize
        };
        if tag < variants.len() {
            let part: usize = variants[tag];
            tasks.push(Task::Visit { id: part, pos });
            proof {
                lemma_work_unfolds(
                    reg@,
                    self.archive(),
                    old(tasks)@,
                    Task::Visit { id: part, pos },
                    self.ancestors(),
                    self.committed(),
                );
            }
            None
        } else {
            Some(ValidationError::InvalidDiscriminant)
        }
    }

    /// The step for the fields of a record from field `k` on: field `k` is
    /// put on the list, and behind it the fields that follow.
    fn step_fields(
        &mut self,
        reg: &Registry,
        id: usize,
        pos: usize,
        k: usize,
        tasks: &mut Vec<Task>,
    ) -> (failure: Option<ValidationError>)
        requires
            reg.wf(),
            id < reg@.len(),
            reg@[id as int] is Record,
            ready(reg@, old(tasks)@, old(self)),
        ensures
            stepped(
                reg@,
                old(self).archive(),
                old(tasks)@,
                Task::Fields { id, pos, k },
                old(self),
                final(tasks)@,
                final(self),
                failure,
            ),
    {
        let ghost task = Task::Fields { id, pos, k };
        proof {
            reg.lemma_wf();
            assert(shape_wf(reg@, id as int));
            lemma_work_unfolds(reg@, self.archive(), tasks@, task, self.ancestors(), self.committed());
        }
        match reg.shape(id) {
            Shape::Record { fields, .. } => {
                if k >= fields.len() {
                    return None;
                }
                let f: Field = fields[k];
                let at: usize = match pos.checked_add(f.offset) {
                    Some(at) => at,
                    None => {
                        // A position that no archive has: the field is out
                        // of bounds, as the model says of it.
                        proof {
                            lemma_layout_sound(reg@, f.shape as int);
                        }
                        return Some(ValidationError::OutOfBounds);
                    },
                };
                let ghost later = Task::Fields { id, pos, k: (k + 1) as usize };
                let ghost visit = Task::Visit { id: f.shape, pos: at };
                tasks.push(Task::Fields { id, pos, k: k + 1 });
                tasks.push(Task::Visit { id: f.shape, pos: at });
                proof {
                    let rest = old(tasks)@;
                    lemma_work_unfolds(
                        reg@,
                        self.archive(),
                        rest.push(later),
                        visit,
                        self.ancestors(),
                        self.committed(),
                    );
                    lemma_work_unfolds(
                        reg@,
                        self.archive(),
                        rest,
                        later,
                        self.ancestors(),
                        self.committed(),
                    );
                    match walk(
                        reg@,
                        self.archive(),
                        self.ancestors(),
                        self.committed(),
                        f.shape as int,
                        at as int,
                    ) {
                        Ok(next) => {
                            lemma_work_unfolds(
                                reg@,
                                self.archive(),
                                rest,
                                later,
                                self.ancestors(),
                                next,
                            );
                        },
                        Err(_) => {},
                    }
                }
                None
            },
            _ => None,
        }
    }

    /// The step for the elements of a sequence from element `i` on: element
    /// `i` is put on the list, and behind it the elements that follow.
    /// Elements without bytes all stand at one position, and one of them
    /// is validated for all.
    fn step_elements(
        &mut self,
        reg: &Registry,
        element: usize,
        base: usize,
        i: usize,
        count: usize,
        tasks: &mut Vec<Task>,
    ) -> (failure: Option<ValidationError>)
        requires
            reg.wf(),
            element < reg@.len(),
            ready(reg@, old(tasks)@, old(self)),
        ensures
            stepped(
                reg@,
                old(self).archive(),
                old(tasks)@,
                Task::Elements { element, base, i, count },
                old(self),
                final(tasks)@,
                final(self),
                failure,
            ),
    {
        let ghost task = Task::Elements { element, base, i, count };
        proof {
            reg.lemma_wf();
            lemma_layout_sound(reg@, element as int);
            lemma_work_unfolds(reg@, self.archive(), tasks@, task, self.ancestors(), self.committed());
        }
        if i >= count {
            return None;
        }
        let stride: usize = reg.size_of(element);
        if stride == 0 {
            tasks.push(Task::Visit { id: element, pos: base });
            proof {
                lemma_work_unfolds(
                    reg@,
                    self.archive(),
                    old(tasks)@,
                    Task::Visit { id: element, pos: base },
                    self.ancestors(),
                    self.committed(),
                );
                assert(base + i * 0 == base);
                if walk(
                    reg@,
                    self.archive(),
                    self.ancestors(),
                    self.committed(),
                    element as int,
                    base as int,
                ) is Ok {
                    lemma_empty_value_claims_nothing(
                        reg@,
                        self.archive(),
                        self.ancestors(),
                        self.committed(),
                        element as int,
                        base as int,
                    );
                    lemma_empty_elements_alike(
                        reg@,
                        self.archive(),
                        self.ancestors(),
                        self.committed(),
                        element as int,
                        base as int,
                        i as int,
                        count as int,
                    );
                }
            }
            return None;
        }
        let at: usize = match i.checked_mul(stride) {
            None => None,
            Some(skip) => base.checked_add(skip),
        }.unwrap_or(usize::MAX);
        let ghost later = Task::Elements { element, base, i: (i + 1) as usize, count };
        let ghost visit = Task::Visit { id: element, pos: at };
        if at == usize::MAX {
            // A position that no value with bytes can stand at: the element
            // is out of bounds, as the model says of it.
            assert(base + i * stride >= usize::MAX);
            return Some(ValidationError::OutOfBounds);
        }
        tasks.push(Task::Elements { element, base, i: i + 1, count });
        tasks.push(Task::Visit { id: element, pos: at });
        proof {
            let rest = old(tasks)@;
            lemma_work_unfolds(
                reg@,
                self.archive(),
                rest.push(later),
                visit,
                self.ancestors(),
                self.committed(),
            );
            lemma_work_unfolds(reg@, self.archive(), rest, later, self.ancestors(), self.committed());
            match walk(
                reg@,
                self.archive(),
                self.ancestors(),
                self.committed(),
                element as int,
                at as int,
            ) {
                Ok(next) => {
                    lemma_work_unfolds(reg@, self.archive(), rest, later, self.ancestors(), next);
                },
                Err(_) => {},
            }
        }
        None
    }

    /// Validates a value of shape `id` that is addressed on its own, at
    /// `at`: the target of a reference, or the root of the archive. Its range
    /// is claimed, held open while the value is walked, and committed.
    pub fn validate_owned(&mut self, reg: &Registry, id: usize, at: usize) -> (r: Result<
        (),
        ValidationError,
    >)
        requires
            reg.wf(),
            id < reg@.len(),
            old(self).wf(),
        ensures
            final(self).wf(),
            final(self).archive() == old(self).archive(),
            final(self).ancestors() == old(self).ancestors(),
            old(self).committed().subset_of(final(self).committed()),
            agrees(
                r,
                final(self).committed(),
                walk_owned(
                    reg@,
                    old(self).archive(),
                    old(self).ancestors(),
                    old(self).committed(),
                    id as int,
                    at as int,
                ),
            ),
    {
        proof {
            reg.lemma_wf();
        }
        let len: usize = self.bytes().len();
        let size: usize = reg.size_of(id);
        let align: usize = reg.align_of(id);
        match check_extent(len, at, size, align) {
            Err(e) => {
                return Err(e);
            },
            Ok(_) => {},
        }
        let span = Span::new(at, at + size);
        assert(span == span_at(at as int, size as int));
        let guard = match self.enter(span) {
            Err(e) => {
                return Err(e);
            },
            Ok(guard) => guard,
        };
        let r = self.validate_at(reg, id, at);
        self.exit(guard);
        assert(self.ancestors() =~= old(self).ancestors());
        r
    }
}

} // verus!
