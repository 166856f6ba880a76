//! The entry point: is this buffer safe to view as a value of this shape at
//! this position?

use vstd::prelude::*;
use crate::claims::ArchiveContext;
use crate::error::ValidationError;
use crate::laws::lemma_accepts_exactly_what_is_written;
use crate::shape::{align_of, size_of, Registry, Shape};
use crate::span::Span;
use crate::archive_view::ArchiveView;
use crate::walk::{span_at, walk, walk_root};
use crate::written::{holds_value, Value};

verus! {

/// What `validate` answers: the violation that the model foretells, or a
/// view of exactly what was asked for.
pub open spec fn answers(
    r: Result<ArchiveView<'_>, ValidationError>,
    shapes: Seq<Shape>,
    bytes: Seq<u8>,
    id: int,
    root: int,
) -> bool {
    match walk_root(shapes, bytes, id, root) {
        Err(e) => r == Err::<ArchiveView<'_>, ValidationError>(e),
        Ok(_) => r is Ok && r->Ok_0.shows(shapes, bytes, id, root),
    }
}

/// Validates `bytes` as a value of shape `id` at position `root`, with a
/// context of its own that nothing has been claimed in. The answer is the
/// first violation met on the way, or a view of the value that borrows the
/// buffer; nothing is copied and nothing is kept between calls.
///
/// The buffer is accepted exactly when it holds a value of that shape at
/// that position: every part in bounds and aligned where the shape puts
/// it, every tag known, and whatever a reference owns in bytes that nothing
/// else owns.
pub fn validate<'a>(reg: &'a Registry, bytes: &'a [u8], id: usize, root: usize) -> (r: Result<
    ArchiveView<'a>,
    ValidationError,
>)
    requires
        reg.wf(),
        id < reg@.len(),
    ensures
        answers(r, reg@, bytes@, id as int, root as int),
        r is Ok <==> exists|v: Value| #[trigger]
            holds_value(reg@, bytes@, id as int, root as int, v),
        r is Ok ==> root + size_of(reg@, id as int) <= bytes@.len() && (root as int) % align_of(
            reg@,
            id as int,
        ) == 0,
{
    let mut ctx = ArchiveContext::new(bytes);
    proof {
        reg.lemma_wf();
        lemma_accepts_exactly_what_is_written(reg@, bytes@, id as int, root as int);
    }
    match ctx.validate_owned(reg, id, root) {
        Err(e) => Err(e),
        Ok(_) => {
            proof {
                reg.lemma_wf();
                let span = span_at(root as int, size_of(reg@, id as int));
                assert(walk(
                    reg@,
                    bytes@,
                    Seq::<Span>::empty().push(span),
                    Set::<Span>::empty(),
                    id as int,
                    root as int,
                ) is Ok);
            }
            Ok(ArchiveView::at(reg, bytes, id, root, Ghost(Seq::<Span>::empty().push(
                span_at(root as int, size_of(reg@, id as int)),
            )), Ghost(Set::<Span>::empty())))
        },
    }
}

} // verus!
