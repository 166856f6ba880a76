//! Views: what a caller holds after a successful validation.
//!
//! A view is a position and a shape that some walk has accepted. Reading
//! through it needs no further check: that the bytes are there, aligned and
//! well tagged is what the walk has shown, and each step from a view to a
//! part of it lands on something that the same walk has accepted.

use vstd::prelude::*;
use vstd::slice::slice_subrange;
use vstd::utf8::valid_utf8;
use crate::encoding::is_utf8;
use crate::shape::{
    align_of, lemma_layout_sound, lemma_multiple_reaches_align, shape_wf, size_of, tag_width,
    tag_width_of, Field, Registry, Shape,
};
use crate::span::Span;
use crate::walk::{
    span_at, walk, walk_boxed, walk_elements, walk_fields, walk_optional, walk_sequence, walk_text,
    walk_union, walkable,
};
use crate::wire::{
    le_value, read_offset, read_u16, read_u32, read_u64, read_u8, resolve, resolved, stored_offset,
};

verus! {

/// Some walk accepts shape `id` at `pos`: there are open and committed
/// ranges with which the walk succeeds.
pub open spec fn accepted(shapes: Seq<Shape>, bytes: Seq<u8>, id: int, pos: int) -> bool {
    &&& walkable(shapes, bytes)
    &&& 0 <= id < shapes.len()
    &&& exists|ancestors: Seq<Span>, committed: Set<Span>|
        (#[trigger] walk(shapes, bytes, ancestors, committed, id, pos)) is Ok
}

/// The number that a scalar of at most eight bytes holds.
pub open spec fn scalar_at(shapes: Seq<Shape>, bytes: Seq<u8>, id: int, pos: int) -> Option<u64> {
    match shapes[id] {
        Shape::Scalar { width } => if width <= 8 {
            Some(le_value(bytes, pos, width as nat) as u64)
        } else {
            None
        },
        _ => None,
    }
}

/// The shape and position of the payload of an optional value that is
/// present.
pub open spec fn payload_of(shapes: Seq<Shape>, bytes: Seq<u8>, id: int, pos: int) -> Option<
    (int, int),
> {
    match shapes[id] {
        Shape::Optional { payload } => if bytes[pos] == 1 {
            Some((payload as int, pos + align_of(shapes, id)))
        } else {
            None
        },
        _ => None,
    }
}

/// The range of the bytes that a text owns.
pub open spec fn text_of(shapes: Seq<Shape>, bytes: Seq<u8>, id: int, pos: int) -> Option<
    (int, int),
> {
    match shapes[id] {
        Shape::Text => Some(
            (pos + stored_offset(bytes, pos), pos + stored_offset(bytes, pos) + le_value(
                bytes,
                pos + 4,
                4,
            )),
        ),
        _ => None,
    }
}

/// The shape and position of the value that an owning reference points to.
pub open spec fn target_of(shapes: Seq<Shape>, bytes: Seq<u8>, id: int, pos: int) -> Option<
    (int, int),
> {
    match shapes[id] {
        Shape::Boxed { target } => Some((target as int, pos + stored_offset(bytes, pos))),
        _ => None,
    }
}

/// The number of elements of a sequence.
pub open spec fn count_of(shapes: Seq<Shape>, bytes: Seq<u8>, id: int, pos: int) -> Option<int> {
    match shapes[id] {
        Shape::Sequence { .. } => Some(le_value(bytes, pos + 4, 4) as int),
        _ => None,
    }
}

/// The shape and position of element `i` of a sequence.
pub open spec fn element_of(shapes: Seq<Shape>, bytes: Seq<u8>, id: int, pos: int, i: int)
    -> Option<(int, int)> {
    match shapes[id] {
        Shape::Sequence { element } => if 0 <= i < le_value(bytes, pos + 4, 4) {
            Some(
                (
                    element as int,
                    pos + stored_offset(bytes, pos) + i * size_of(shapes, element as int),
                ),
            )
        } else {
            None
        },
        _ => None,
    }
}

/// The shape and position of field `k` of a record.
pub open spec fn field_of(shapes: Seq<Shape>, id: int, pos: int, k: int) -> Option<(int, int)> {
    match shapes[id] {
        Shape::Record { fields, .. } => if 0 <= k < fields@.len() {
            Some((fields@[k].shape as int, pos + fields@[k].offset))
        } else {
            None
        },
        _ => None,
    }
}

/// The tag of a union.
pub open spec fn tag_of(shapes: Seq<Shape>, bytes: Seq<u8>, id: int, pos: int) -> Option<int> {
    match shapes[id] {
        Shape::Union { variants, .. } => Some(
            le_value(bytes, pos, tag_width(variants@.len() as int) as nat) as int,
        ),
        _ => None,
    }
}

/// The shape and position of the variant that the tag of a union selects.
pub open spec fn variant_of(shapes: Seq<Shape>, bytes: Seq<u8>, id: int, pos: int) -> Option<
    (int, int),
> {
    match shapes[id] {
        Shape::Union { variants, .. } => Some(
            (
                variants@[le_value(bytes, pos, tag_width(variants@.len() as int) as nat) as int] as int,
                pos,
            ),
        ),
        _ => None,
    }
}

/// A walk that accepts a value has found it inside the archive and aligned.
pub proof fn lemma_accepted_in_bounds(shapes: Seq<Shape>, bytes: Seq<u8>, id: int, pos: int)
    requires
        accepted(shapes, bytes, id, pos),
    ensures
        0 <= pos,
        pos + size_of(shapes, id) <= bytes.len(),
        pos % align_of(shapes, id) == 0,
        size_of(shapes, id) >= 0,
{
    lemma_layout_sound(shapes, id);
}

/// A walk that accepts an optional value with tag 1 accepts its payload.
pub proof fn lemma_payload_accepted(shapes: Seq<Shape>, bytes: Seq<u8>, id: int, pos: int)
    requires
        accepted(shapes, bytes, id, pos),
        payload_of(shapes, bytes, id, pos) is Some,
    ensures
        accepted(
            shapes,
            bytes,
            payload_of(shapes, bytes, id, pos)->Some_0.0,
            payload_of(shapes, bytes, id, pos)->Some_0.1,
        ),
{
    let (ancestors, committed) = choose|ancestors: Seq<Span>, committed: Set<Span>|
        (#[trigger] walk(shapes, bytes, ancestors, committed, id, pos)) is Ok;
    assert(shape_wf(shapes, id));
    let child = payload_of(shapes, bytes, id, pos)->Some_0;
    assert(walk_optional(shapes, bytes, ancestors, committed, id, pos) is Ok);
    assert(walk(shapes, bytes, ancestors, committed, child.0, child.1) is Ok);
}

/// A walk that accepts a text has found its bytes inside the archive.
pub proof fn lemma_text_in_bounds(shapes: Seq<Shape>, bytes: Seq<u8>, id: int, pos: int)
    requires
        accepted(shapes, bytes, id, pos),
        shapes[id] is Text,
    ensures
        0 <= text_of(shapes, bytes, id, pos)->Some_0.0 <= text_of(shapes, bytes, id, pos)->Some_0.1
            <= bytes.len(),
        resolved(pos, stored_offset(bytes, pos), bytes.len() as int) == Some(
            text_of(shapes, bytes, id, pos)->Some_0.0,
        ),
{
    let (ancestors, committed) = choose|ancestors: Seq<Span>, committed: Set<Span>|
        (#[trigger] walk(shapes, bytes, ancestors, committed, id, pos)) is Ok;
    assert(walk_text(bytes, ancestors, committed, pos) is Ok);
}

/// A walk that accepts an owning reference accepts what it points to.
pub proof fn lemma_target_accepted(shapes: Seq<Shape>, bytes: Seq<u8>, id: int, pos: int)
    requires
        accepted(shapes, bytes, id, pos),
        shapes[id] is Boxed,
    ensures
        accepted(
            shapes,
            bytes,
            target_of(shapes, bytes, id, pos)->Some_0.0,
            target_of(shapes, bytes, id, pos)->Some_0.1,
        ),
        resolved(pos, stored_offset(bytes, pos), bytes.len() as int) == Some(
            target_of(shapes, bytes, id, pos)->Some_0.1,
        ),
{
    let (ancestors, committed) = choose|ancestors: Seq<Span>, committed: Set<Span>|
        (#[trigger] walk(shapes, bytes, ancestors, committed, id, pos)) is Ok;
    assert(shape_wf(shapes, id));
    let child = target_of(shapes, bytes, id, pos)->Some_0;
    let span = span_at(child.1, size_of(shapes, child.0));
    assert(walk_boxed(shapes, bytes, ancestors, committed, id, pos) is Ok);
    assert(walk(shapes, bytes, ancestors.push(span), committed, child.0, child.1) is Ok);
}

/// Where the elements `from`, .., `count - 1` of a sequence are accepted
/// one after another, each of them is accepted.
pub proof fn lemma_each_element_accepted(
    shapes: Seq<Shape>,
    bytes: Seq<u8>,
    ancestors: Seq<Span>,
    committed: Set<Span>,
    element: int,
    base: int,
    from: int,
    count: int,
    i: int,
)
    requires
        walkable(shapes, bytes),
        0 <= element < shapes.len(),
        0 <= from <= i < count,
        walk_elements(shapes, bytes, ancestors, committed, element, base, from, count) is Ok,
    ensures
        accepted(shapes, bytes, element, base + i * size_of(shapes, element)),
    decreases i - from,
{
    let here = walk(
        shapes,
        bytes,
        ancestors,
        committed,
        element,
        base + from * size_of(shapes, element),
    );
    assert(here is Ok);
    if i > from {
        lemma_each_element_accepted(
            shapes,
            bytes,
            ancestors,
            here->Ok_0,
            element,
            base,
            from + 1,
            count,
            i,
        );
    }
}

/// A walk that accepts a sequence has found its elements inside the archive
/// and accepts each of them.
pub proof fn lemma_element_accepted(shapes: Seq<Shape>, bytes: Seq<u8>, id: int, pos: int, i: int)
    requires
        accepted(shapes, bytes, id, pos),
        shapes[id] is Sequence,
    ensures
        resolved(pos, stored_offset(bytes, pos), bytes.len() as int) == Some(
            pos + stored_offset(bytes, pos),
        ),
        pos + stored_offset(bytes, pos) + le_value(bytes, pos + 4, 4) * size_of(
            shapes,
            shapes[id]->element as int,
        ) <= bytes.len(),
        size_of(shapes, shapes[id]->element as int) >= 0,
        element_of(shapes, bytes, id, pos, i) is Some ==> accepted(
            shapes,
            bytes,
            element_of(shapes, bytes, id, pos, i)->Some_0.0,
            element_of(shapes, bytes, id, pos, i)->Some_0.1,
        ),
{
    let (ancestors, committed) = choose|ancestors: Seq<Span>, committed: Set<Span>|
        (#[trigger] walk(shapes, bytes, ancestors, committed, id, pos)) is Ok;
    assert(shape_wf(shapes, id));
    let element = shapes[id]->element as int;
    lemma_layout_sound(shapes, element);
    let at = pos + stored_offset(bytes, pos);
    let count = le_value(bytes, pos + 4, 4) as int;
    let span = span_at(at, count * size_of(shapes, element));
    assert(walk_sequence(shapes, bytes, ancestors, committed, id, pos) is Ok);
    if element_of(shapes, bytes, id, pos, i) is Some {
        assert(walk_elements(
            shapes,
            bytes,
            ancestors.push(span),
            committed,
            element,
            at,
            0,
            count,
        ) is Ok);
        lemma_each_element_accepted(
            shapes,
            bytes,
            ancestors.push(span),
            committed,
            element,
            at,
            0,
            count,
            i,
        );
    }
}

/// Where the fields `from`, `from + 1`, .. of a record are accepted one
/// after another, each of them is accepted.
pub proof fn lemma_each_field_accepted(
    shapes: Seq<Shape>,
    bytes: Seq<u8>,
    ancestors: Seq<Span>,
    committed: Set<Span>,
    id: int,
    pos: int,
    from: int,
    k: int,
)
    requires
        walkable(shapes, bytes),
        0 <= id < shapes.len(),
        shapes[id] is Record,
        0 <= from <= k < shapes[id]->fields@.len(),
        walk_fields(shapes, bytes, ancestors, committed, id, pos, from) is Ok,
    ensures
        accepted(
            shapes,
            bytes,
            shapes[id]->fields@[k].shape as int,
            pos + shapes[id]->fields@[k].offset,
        ),
    decreases k - from,
{
    let fields = shapes[id]->fields@;
    assert(shape_wf(shapes, id));
    let here = walk(
        shapes,
        bytes,
        ancestors,
        committed,
        fields[from].shape as int,
        pos + fields[from].offset,
    );
    assert(here is Ok);
    if k > from {
        lemma_each_field_accepted(shapes, bytes, ancestors, here->Ok_0, id, pos, from + 1, k);
    }
}

/// A walk that accepts a record accepts each of its fields.
pub proof fn lemma_field_accepted(shapes: Seq<Shape>, bytes: Seq<u8>, id: int, pos: int, k: int)
    requires
        accepted(shapes, bytes, id, pos),
        field_of(shapes, id, pos, k) is Some,
    ensures
        accepted(
            shapes,
            bytes,
            field_of(shapes, id, pos, k)->Some_0.0,
            field_of(shapes, id, pos, k)->Some_0.1,
        ),
{
    let (ancestors, committed) = choose|ancestors: Seq<Span>, committed: Set<Span>|
        (#[trigger] walk(shapes, bytes, ancestors, committed, id, pos)) is Ok;
    assert(walk_fields(shapes, bytes, ancestors, committed, id, pos, 0) is Ok);
    lemma_each_field_accepted(shapes, bytes, ancestors, committed, id, pos, 0, k);
}

/// A walk that accepts a union has found a tag that selects a variant, and
/// accepts that variant.
pub proof fn lemma_variant_accepted(shapes: Seq<Shape>, bytes: Seq<u8>, id: int, pos: int)
    requires
        accepted(shapes, bytes, id, pos),
        shapes[id] is Union,
    ensures
        0 <= tag_of(shapes, bytes, id, pos)->Some_0 < shapes[id]->variants@.len(),
        accepted(
            shapes,
            bytes,
            variant_of(shapes, bytes, id, pos)->Some_0.0,
            variant_of(shapes, bytes, id, pos)->Some_0.1,
        ),
{
    let (ancestors, committed) = choose|ancestors: Seq<Span>, committed: Set<Span>|
        (#[trigger] walk(shapes, bytes, ancestors, committed, id, pos)) is Ok;
    assert(shape_wf(shapes, id));
    let child = variant_of(shapes, bytes, id, pos)->Some_0;
    assert(walk_union(shapes, bytes, ancestors, committed, id, pos) is Ok);
    assert(walk(shapes, bytes, ancestors, committed, child.0, child.1) is Ok);
}

/// A value in an archive that validation has accepted. It borrows the
/// archive and the table of shapes and copies nothing.
#[derive(Debug)]
pub struct ArchiveView<'a> {
    reg: &'a Registry,
    bytes: &'a [u8],
    id: usize,
    pos: usize,
}

impl<'a> ArchiveView<'a> {
    /// The table of shapes that the value was validated against.
    pub closed spec fn registry(&self) -> Seq<Shape> {
        self.reg@
    }

    /// The bytes of the archive.
    pub closed spec fn archive(&self) -> Seq<u8> {
        self.bytes@
    }

    /// The index of the value's shape.
    pub closed spec fn shape_id(&self) -> int {
        self.id as int
    }

    /// The position of the value.
    pub closed spec fn position(&self) -> int {
        self.pos as int
    }

    /// Some walk has accepted this shape at this position of this archive.
    pub closed spec fn valid(&self) -> bool {
        &&& self.reg.wf()
        &&& accepted(self.reg@, self.bytes@, self.id as int, self.pos as int)
    }

    /// This is a valid view of shape `id` at `pos`, over the same archive
    /// and table.
    pub open spec fn shows(&self, shapes: Seq<Shape>, bytes: Seq<u8>, id: int, pos: int) -> bool {
        &&& self.valid()
        &&& self.registry() == shapes
        &&& self.archive() == bytes
        &&& self.shape_id() == id
        &&& self.position() == pos
    }

    /// `part` is the view of the part of this value that `place` names, or
    /// there is neither.
    pub open spec fn leads_to(&self, part: Option<ArchiveView<'a>>, place: Option<(int, int)>)
        -> bool {
        match place {
            None => part is None,
            Some((id, pos)) => part is Some && part->Some_0.shows(
                self.registry(),
                self.archive(),
                id,
                pos,
            ),
        }
    }

    /// What `valid` says in terms of the model.
    pub proof fn lemma_valid(&self)
        requires
            self.valid(),
        ensures
            accepted(self.registry(), self.archive(), self.shape_id(), self.position()),
    {
    }

    /// The view of shape `id` at `pos`, which the walk with `ancestors` open
    /// and `committed` committed has accepted.
    pub(crate) fn at(
        reg: &'a Registry,
        bytes: &'a [u8],
        id: usize,
        pos: usize,
        Ghost(ancestors): Ghost<Seq<Span>>,
        Ghost(committed): Ghost<Set<Span>>,
    ) -> (v: Self)
        requires
            reg.wf(),
            id < reg@.len(),
            bytes@.len() <= usize::MAX,
            walk(reg@, bytes@, ancestors, committed, id as int, pos as int) is Ok,
        ensures
            v.shows(reg@, bytes@, id as int, pos as int),
    {
        proof {
            reg.lemma_wf();
        }
        ArchiveView { reg, bytes, id, pos }
    }

    /// The index of the value's shape.
    pub fn shape(&self) -> (id: usize)
        ensures
            id == self.shape_id(),
    {
        self.id
    }

    /// The position of the value.
    pub fn pos(&self) -> (pos: usize)
        ensures
            pos == self.position(),
    {
        self.pos
    }

    /// The value's shape.
    pub fn kind(&self) -> (s: &'a Shape)
        requires
            self.valid(),
        ensures
            *s == self.registry()[self.shape_id()],
    {
        self.reg.shape(self.id)
    }

    /// The bytes that the value occupies where it stands.
    pub fn own_bytes(&self) -> (b: &'a [u8])
        requires
            self.valid(),
        ensures
            b@ == self.archive().subrange(
                self.position(),
                self.position() + size_of(self.registry(), self.shape_id()),
            ),
    {
        proof {
            lemma_accepted_in_bounds(self.reg@, self.bytes@, self.id as int, self.pos as int);
        }
        let size: usize = self.reg.size_of(self.id);
        slice_subrange(self.bytes, self.pos, self.pos + size)
    }

    /// The number that a scalar of one, two, four or eight bytes holds.
    pub fn scalar(&self) -> (r: Option<u64>)
        requires
            self.valid(),
        ensures
            r == scalar_at(self.registry(), self.archive(), self.shape_id(), self.position()),
    {
        proof {
            self.reg.lemma_wf();
            assert(shape_wf(self.reg@, self.id as int));
            lemma_accepted_in_bounds(self.reg@, self.bytes@, self.id as int, self.pos as int);
        }
        match self.reg.shape(self.id) {
            Shape::Scalar { width } => {
                if *width == 1 {
                    Some(read_u8(self.bytes, self.pos) as u64)
                } else if *width == 2 {
                    Some(read_u16(self.bytes, self.pos) as u64)
                } else if *width == 4 {
                    Some(read_u32(self.bytes, self.pos) as u64)
                } else if *width == 8 {
                    Some(read_u64(self.bytes, self.pos))
                } else {
                    None
                }
            },
            _ => None,
        }
    }

    /// The payload of an optional value that is present.
    pub fn payload(&self) -> (r: Option<ArchiveView<'a>>)
        requires
            self.valid(),
        ensures
            self.leads_to(
                r,
                payload_of(self.registry(), self.archive(), self.shape_id(), self.position()),
            ),
    {
        proof {
            self.reg.lemma_wf();
            assert(shape_wf(self.reg@, self.id as int));
            lemma_accepted_in_bounds(self.reg@, self.bytes@, self.id as int, self.pos as int);
        }
        match self.reg.shape(self.id) {
            Shape::Optional { payload } => {
                proof {
                    lemma_layout_sound(self.reg@, *payload as int);
                }
                if self.bytes[self.pos] == 1 {
                    proof {
                        lemma_payload_accepted(
                            self.reg@,
                            self.bytes@,
                            self.id as int,
                            self.pos as int,
                        );
                    }
                    let gap: usize = self.reg.align_of(self.id);
                    Some(
                        ArchiveView {
                            reg: self.reg,
                            bytes: self.bytes,
                            id: *payload,
                            pos: self.pos + gap,
                        },
                    )
                } else {
                    None
                }
            },
            _ => None,
        }
    }

    /// The bytes that a text owns.
    pub fn text(&self) -> (r: Option<&'a [u8]>)
        requires
            self.valid(),
        ensures
            match text_of(self.registry(), self.archive(), self.shape_id(), self.position()) {
                None => r is None,
                Some((from, to)) => r is Some && 0 <= from <= to <= self.archive().len()
                    && r->Some_0@ == self.archive().subrange(from, to),
            },
    {
        proof {
            lemma_accepted_in_bounds(self.reg@, self.bytes@, self.id as int, self.pos as int);
        }
        match self.reg.shape(self.id) {
            Shape::Text => {
                proof {
                    lemma_text_in_bounds(self.reg@, self.bytes@, self.id as int, self.pos as int);
                }
                let stored: i32 = read_offset(self.bytes, self.pos);
                let count: usize = read_u32(self.bytes, self.pos + 4) as usize;
                match resolve(self.pos, stored, self.bytes.len()) {
                    Ok(at) => Some(slice_subrange(self.bytes, at, at + count)),
                    Err(_) => None,
                }
            },
            _ => None,
        }
    }

    /// Whether the bytes that a text owns are well-formed UTF-8. Validation
    /// does not ask that of a text; a caller that reads the bytes as
    /// characters does.
    pub fn text_is_utf8(&self) -> (r: Option<bool>)
        requires
            self.valid(),
        ensures
            match text_of(self.registry(), self.archive(), self.shape_id(), self.position()) {
                None => r is None,
                Some((from, to)) => r == Some(valid_utf8(self.archive().subrange(from, to))),
            },
    {
        match self.text() {
            Some(bytes) => Some(is_utf8(bytes)),
            None => None,
        }
    }

    /// The value that an owning reference points to.
    pub fn target(&self) -> (r: Option<ArchiveView<'a>>)
        requires
            self.valid(),
        ensures
            self.leads_to(
                r,
                target_of(self.registry(), self.archive(), self.shape_id(), self.position()),
            ),
    {
        proof {
            lemma_accepted_in_bounds(self.reg@, self.bytes@, self.id as int, self.pos as int);
        }
        match self.reg.shape(self.id) {
            Shape::Boxed { target } => {
                proof {
                    lemma_target_accepted(self.reg@, self.bytes@, self.id as int, self.pos as int);
                }
                let stored: i32 = read_offset(self.bytes, self.pos);
                match resolve(self.pos, stored, self.bytes.len()) {
                    Ok(at) => Some(
                        ArchiveView { reg: self.reg, bytes: self.bytes, id: *target, pos: at },
                    ),
                    Err(_) => None,
                }
            },
            _ => None,
        }
    }

    /// The number of elements of a sequence.
    pub fn count(&self) -> (r: Option<usize>)
        requires
            self.valid(),
        ensures
            match count_of(self.registry(), self.archive(), self.shape_id(), self.position()) {
                None => r is None,
                Some(n) => r is Some && r->Some_0 == n,
            },
    {
        proof {
            lemma_accepted_in_bounds(self.reg@, self.bytes@, self.id as int, self.pos as int);
        }
        match self.reg.shape(self.id) {
            Shape::Sequence { .. } => Some(read_u32(self.bytes, self.pos + 4) as usize),
            _ => None,
        }
    }

    /// Element `i` of a sequence.
    pub fn element(&self, i: usize) -> (r: Option<ArchiveView<'a>>)
        requires
            self.valid(),
        ensures
            self.leads_to(
                r,
                element_of(
                    self.registry(),
                    self.archive(),
                    self.shape_id(),
                    self.position(),
                    i as int,
                ),
            ),
    {
        proof {
            self.reg.lemma_wf();
            assert(shape_wf(self.reg@, self.id as int));
            lemma_accepted_in_bounds(self.reg@, self.bytes@, self.id as int, self.pos as int);
        }
        match self.reg.shape(self.id) {
            Shape::Sequence { element } => {
                proof {
                    lemma_element_accepted(
                        self.reg@,
                        self.bytes@,
                        self.id as int,
                        self.pos as int,
                        i as int,
                    );
                }
                let count: usize = read_u32(self.bytes, self.pos + 4) as usize;
                if i >= count {
                    return None;
                }
                let stored: i32 = read_offset(self.bytes, self.pos);
                let stride: usize = self.reg.size_of(*element);
                assert(i * stride <= count * stride) by (nonlinear_arith)
                    requires
                        i < count,
                        stride >= 0,
                ;
                match resolve(self.pos, stored, self.bytes.len()) {
                    Ok(at) => Some(
                        ArchiveView {
                            reg: self.reg,
                            bytes: self.bytes,
                            id: *element,
                            pos: at + i * stride,
                        },
                    ),
                    Err(_) => None,
                }
            },
            _ => None,
        }
    }

    /// Field `k` of a record.
    pub fn field(&self, k: usize) -> (r: Option<ArchiveView<'a>>)
        requires
            self.valid(),
        ensures
            self.leads_to(
                r,
                field_of(self.registry(), self.shape_id(), self.position(), k as int),
            ),
    {
        proof {
            self.reg.lemma_wf();
            assert(shape_wf(self.reg@, self.id as int));
            lemma_accepted_in_bounds(self.reg@, self.bytes@, self.id as int, self.pos as int);
        }
        match self.reg.shape(self.id) {
            Shape::Record { fields, .. } => {
                if k >= fields.len() {
                    return None;
                }
                let f: Field = fields[k];
                proof {
                    lemma_field_accepted(
                        self.reg@,
                        self.bytes@,
                        self.id as int,
                        self.pos as int,
                        k as int,
                    );
                    lemma_layout_sound(self.reg@, f.shape as int);
                }
                Some(
                    ArchiveView {
                        reg: self.reg,
                        bytes: self.bytes,
                        id: f.shape,
                        pos: self.pos + f.offset,
                    },
                )
            },
            _ => None,
        }
    }

    /// The tag of a union.
    pub fn tag(&self) -> (r: Option<usize>)
        requires
            self.valid(),
        ensures
            match tag_of(self.registry(), self.archive(), self.shape_id(), self.position()) {
                None => r is None,
                Some(t) => r is Some && r->Some_0 == t && t < self.registry()[self.shape_id(
                )]->variants@.len(),
            },
    {
        proof {
            self.reg.lemma_wf();
            assert(shape_wf(self.reg@, self.id as int));
            lemma_accepted_in_bounds(self.reg@, self.bytes@, self.id as int, self.pos as int);
        }
        match self.reg.shape(self.id) {
            Shape::Union { variants, .. } => {
                proof {
                    lemma_variant_accepted(self.reg@, self.bytes@, self.id as int, self.pos as int);
                    lemma_multiple_reaches_align(
                        size_of(self.reg@, self.id as int),
                        align_of(self.reg@, self.id as int),
                    );
                }
                let width: usize = tag_width_of(variants.len());
                if width == 1 {
                    Some(read_u8(self.bytes, self.pos) as usize)
                } else if width == 2 {
                    Some(read_u16(self.bytes, self.pos) as usize)
                } else {
                    Some(read_u32(self.bytes, self.pos) as usize)
                }
            },
            _ => None,
        }
    }

    /// The variant that the tag of a union selects, laid out from the start
    /// of the union.
    pub fn variant(&self) -> (r: Option<ArchiveView<'a>>)
        requires
            self.valid(),
        ensures
            self.leads_to(
                r,
                variant_of(self.registry(), self.archive(), self.shape_id(), self.position()),
            ),
    {
        match self.reg.shape(self.id) {
            Shape::Union { variants, .. } => {
                proof {
                    lemma_variant_accepted(self.reg@, self.bytes@, self.id as int, self.pos as int);
                }
                match self.tag() {
                    Some(tag) => Some(
                        ArchiveView {
                            reg: self.reg,
                            bytes: self.bytes,
                            id: variants[tag],
                            pos: self.pos,
                        },
                    ),
                    None => None,
                }
            },
            _ => None,
        }
    }
}

} // verus!
