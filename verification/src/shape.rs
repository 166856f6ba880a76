//! Shapes: what the walk has to know of a type in order to validate a value
//! of it.
//!
//! A shape says how a value is laid out, not what it means. Shapes live in a
//! table and name each other by index, so that a type may refer to itself
//! through a reference. Whatever lies inside a value must stand earlier in
//! the table than the value's own shape; the target of a reference may stand
//! anywhere.

use vstd::prelude::*;

verus! {

/// One field of a record: where it starts, counted from the start of the
/// record, and the index of its shape.
#[derive(Clone, Copy, Debug, PartialEq, Eq, Structural)]
pub struct Field {
    pub offset: usize,
    pub shape: usize,
}

/// The layout of one type.
#[derive(Debug)]
pub enum Shape {
    /// A number of `width` bytes, aligned to its width. Every bit pattern is
    /// a value.
    Scalar { width: usize },
    /// A value that may be absent: one tag byte, 0 or 1, then padding up to
    /// the payload's alignment, then the payload.
    Optional { payload: usize },
    /// Owned bytes: an offset and a length in bytes.
    Text,
    /// One owned value elsewhere in the archive: an offset.
    Boxed { target: usize },
    /// Owned values of one shape, side by side: an offset and a count.
    Sequence { element: usize },
    /// Fields at fixed offsets. A record without fields and of size 0 is the
    /// unit shape.
    Record { fields: Vec<Field>, size: usize, align: usize },
    /// A tag at the start, counting from 0, followed by the fields of the
    /// variant that the tag selects. Each variant is a record laid out from
    /// the start of the union, its fields behind the tag.
    Union { variants: Vec<usize>, size: usize, align: usize },
}

/// The size and alignment of a shape, in bytes.
#[derive(Clone, Copy, Debug, PartialEq, Eq, Structural)]
pub struct Layout {
    pub size: usize,
    pub align: usize,
}

/// The alignments that a shape may have.
pub open spec fn valid_align(a: int) -> bool {
    a == 1 || a == 2 || a == 4 || a == 8 || a == 16
}

/// The width of a tag that tells `variants` variants apart: the smallest of
/// one, two and four bytes that can count them.
pub open spec fn tag_width(variants: int) -> int {
    if variants <= 0x100 {
        1
    } else if variants <= 0x1_0000 {
        2
    } else {
        4
    }
}

/// The number of bytes that a value of shape `id` occupies where it stands.
pub open spec fn size_of(shapes: Seq<Shape>, id: int) -> int
    decreases id,
{
    if 0 <= id < shapes.len() {
        match shapes[id] {
            Shape::Scalar { width } => width as int,
            Shape::Optional { payload } => if payload < id {
                align_of(shapes, payload as int) + size_of(shapes, payload as int)
            } else {
                0
            },
            Shape::Text => 8,
            Shape::Boxed { .. } => 4,
            Shape::Sequence { .. } => 8,
            Shape::Record { size, .. } => size as int,
            Shape::Union { size, .. } => size as int,
        }
    } else {
        0
    }
}

/// The alignment that a value of shape `id` requires.
pub open spec fn align_of(shapes: Seq<Shape>, id: int) -> int
    decreases id,
{
    if 0 <= id < shapes.len() {
        match shapes[id] {
            Shape::Scalar { width } => width as int,
            Shape::Optional { payload } => if payload < id {
                align_of(shapes, payload as int)
            } else {
                1
            },
            Shape::Text => 4,
            Shape::Boxed { .. } => 4,
            Shape::Sequence { .. } => 4,
            Shape::Record { align, .. } => align as int,
            Shape::Union { align, .. } => align as int,
        }
    } else {
        1
    }
}

/// A part of shape `part` placed at `offset` inside a value of shape `id`,
/// which has `size` bytes and alignment `align`: the part's shape stands
/// earlier in the table, and the part is aligned and inside whenever the
/// whole is.
pub open spec fn part_fits(
    shapes: Seq<Shape>,
    id: int,
    part: int,
    offset: int,
    size: int,
    align: int,
) -> bool {
    &&& 0 <= part < id
    &&& offset % align_of(shapes, part) == 0
    &&& offset + size_of(shapes, part) <= size
    &&& align % align_of(shapes, part) == 0
}

/// The table's entry `id` describes a layout that holds together.
pub open spec fn shape_wf(shapes: Seq<Shape>, id: int) -> bool {
    match shapes[id] {
        Shape::Scalar { width } => valid_align(width as int),
        Shape::Optional { payload } => payload < id && align_of(shapes, payload as int) + size_of(
            shapes,
            payload as int,
        ) <= usize::MAX,
        Shape::Text => true,
        Shape::Boxed { target } => target < shapes.len(),
        Shape::Sequence { element } => element < shapes.len(),
        Shape::Record { fields, size, align } => {
            &&& valid_align(align as int)
            &&& size % align == 0
            &&& forall|k: int|
                0 <= k < fields@.len() ==> part_fits(
                    shapes,
                    id,
                    (#[trigger] fields@[k]).shape as int,
                    fields@[k].offset as int,
                    size as int,
                    align as int,
                )
        },
        Shape::Union { variants, size, align } => {
            &&& valid_align(align as int)
            &&& size % align == 0
            &&& size > 0
            &&& variants@.len() <= 0x1_0000_0000
            &&& tag_width(variants@.len() as int) <= align
            &&& forall|v: int|
                0 <= v < variants@.len() ==> part_fits(
                    shapes,
                    id,
                    (#[trigger] variants@[v]) as int,
                    0,
                    size as int,
                    align as int,
                )
        },
    }
}

/// The first `upto` entries of the table hold together.
pub open spec fn prefix_wf(shapes: Seq<Shape>, upto: int) -> bool {
    forall|id: int| 0 <= id < upto ==> #[trigger] shape_wf(shapes, id)
}

/// Every entry of the table holds together.
pub open spec fn registry_wf(shapes: Seq<Shape>) -> bool {
    prefix_wf(shapes, shapes.len() as int)
}

/// `layout` is the size and alignment of shape `id`, and they are sound: the
/// alignment is one of the valid ones and divides the size.
pub open spec fn layout_agrees(shapes: Seq<Shape>, id: int, layout: Layout) -> bool {
    &&& layout.size == size_of(shapes, id)
    &&& layout.align == align_of(shapes, id)
    &&& valid_align(layout.align as int)
    &&& layout.size % layout.align == 0
}

/// The first `upto` entries hold together, and `layouts` lists their sizes
/// and alignments.
pub open spec fn measured(shapes: Seq<Shape>, layouts: Seq<Layout>, upto: int) -> bool {
    &&& 0 <= upto <= shapes.len()
    &&& layouts.len() == upto
    &&& prefix_wf(shapes, upto)
    &&& forall|id: int| 0 <= id < upto ==> layout_agrees(shapes, id, #[trigger] layouts[id])
}

/// A multiple of a valid alignment stays one when the alignment is added.
pub proof fn lemma_multiple_plus_align(n: int, a: int)
    requires
        valid_align(a),
        n % a == 0,
    ensures
        (a + n) % a == 0,
{
    if a == 1 {
        assert((1 + n) % 1 == 0);
    } else if a == 2 {
        assert(n % 2 == 0);
        assert((2 + n) % 2 == 0);
    } else if a == 4 {
        assert(n % 4 == 0);
        assert((4 + n) % 4 == 0);
    } else if a == 8 {
        assert(n % 8 == 0);
        assert((8 + n) % 8 == 0);
    } else {
        assert(n % 16 == 0);
        assert((16 + n) % 16 == 0);
    }
}

/// A positive multiple of a valid alignment is at least the alignment.
pub proof fn lemma_multiple_reaches_align(n: int, a: int)
    requires
        valid_align(a),
        n % a == 0,
        n > 0,
    ensures
        n >= a,
{
    if a == 1 {
    } else if a == 2 {
        assert(n % 2 == 0);
    } else if a == 4 {
        assert(n % 4 == 0);
    } else if a == 8 {
        assert(n % 8 == 0);
    } else {
        assert(n % 16 == 0);
    }
}

/// In a table whose first `id + 1` entries hold together, shape `id` has a
/// valid alignment that divides its size, and its size fits a `usize`.
pub proof fn lemma_layout_sound(shapes: Seq<Shape>, id: int)
    requires
        0 <= id < shapes.len(),
        prefix_wf(shapes, id + 1),
    ensures
        valid_align(align_of(shapes, id)),
        size_of(shapes, id) % align_of(shapes, id) == 0,
        0 <= size_of(shapes, id) <= usize::MAX,
    decreases id,
{
    assert(shape_wf(shapes, id));
    match shapes[id] {
        Shape::Optional { payload } => {
            lemma_layout_sound(shapes, payload as int);
            lemma_multiple_plus_align(size_of(shapes, payload as int), align_of(shapes, id));
        },
        Shape::Scalar { width } => {
            lemma_multiple_plus_align(0, width as int);
        },
        _ => {},
    }
}

/// A table of shapes that holds together, with the size and alignment of
/// each entry worked out once.
#[derive(Debug)]
pub struct Registry {
    shapes: Vec<Shape>,
    layouts: Vec<Layout>,
}

impl View for Registry {
    type V = Seq<Shape>;

    closed spec fn view(&self) -> Seq<Shape> {
        self.shapes@
    }
}

/// Whether `a` is 1, 2, 4, 8 or 16.
fn is_valid_align(a: usize) -> (ok: bool)
    ensures
        ok == valid_align(a as int),
{
    a == 1 || a == 2 || a == 4 || a == 8 || a == 16
}

/// Whether a part of shape `part` at `offset` fits a whole of `size` bytes
/// and alignment `align` that stands at index `id`.
fn check_part(
    layouts: &Vec<Layout>,
    id: usize,
    part: usize,
    offset: usize,
    size: usize,
    align: usize,
    Ghost(shapes): Ghost<Seq<Shape>>,
) -> (ok: bool)
    requires
        measured(shapes, layouts@, id as int),
    ensures
        ok == part_fits(shapes, id as int, part as int, offset as int, size as int, align as int),
{
    if part >= id {
        return false;
    }
    let inner: Layout = layouts[part];
    assert(layout_agrees(shapes, part as int, layouts@[part as int]));
    offset % inner.align == 0 && inner.size <= size && offset <= size - inner.size && align
        % inner.align == 0
}

/// Whether every field of a record at index `id` fits.
fn check_fields(
    layouts: &Vec<Layout>,
    id: usize,
    fields: &Vec<Field>,
    size: usize,
    align: usize,
    Ghost(shapes): Ghost<Seq<Shape>>,
) -> (ok: bool)
    requires
        measured(shapes, layouts@, id as int),
    ensures
        ok == (forall|k: int|
            0 <= k < fields@.len() ==> part_fits(
                shapes,
                id as int,
                (#[trigger] fields@[k]).shape as int,
                fields@[k].offset as int,
                size as int,
                align as int,
            )),
{
    let mut k: usize = 0;
    while k < fields.len()
        invariant
            k <= fields@.len(),
            measured(shapes, layouts@, id as int),
            forall|j: int|
                0 <= j < k ==> part_fits(
                    shapes,
                    id as int,
                    (#[trigger] fields@[j]).shape as int,
                    fields@[j].offset as int,
                    size as int,
                    align as int,
                ),
        decreases fields@.len() - k,
    {
        let f: Field = fields[k];
        if !check_part(layouts, id, f.shape, f.offset, size, align, Ghost(shapes)) {
            assert(fields@[k as int] == f);
            return false;
        }
        k += 1;
    }
    true
}

/// Whether every variant of a union at index `id` fits.
fn check_variants(
    layouts: &Vec<Layout>,
    id: usize,
    variants: &Vec<usize>,
    size: usize,
    align: usize,
    Ghost(shapes): Ghost<Seq<Shape>>,
) -> (ok: bool)
    requires
        measured(shapes, layouts@, id as int),
    ensures
        ok == (forall|v: int|
            0 <= v < variants@.len() ==> part_fits(
                shapes,
                id as int,
                (#[trigger] variants@[v]) as int,
                0,
                size as int,
                align as int,
            )),
{
    let mut v: usize = 0;
    while v < variants.len()
        invariant
            v <= variants@.len(),
            measured(shapes, layouts@, id as int),
            forall|j: int|
                0 <= j < v ==> part_fits(
                    shapes,
                    id as int,
                    (#[trigger] variants@[j]) as int,
                    0,
                    size as int,
                    align as int,
                ),
        decreases variants@.len() - v,
    {
        let part: usize = variants[v];
        if !check_part(layouts, id, part, 0, size, align, Ghost(shapes)) {
            assert(variants@[v as int] == part);
            return false;
        }
        v += 1;
    }
    true
}

/// The number of bytes of the tag of a union with `variants` variants.
pub fn tag_width_of(variants: usize) -> (w: usize)
    ensures
        w == tag_width(variants as int),
{
    if variants <= 0x100 {
        1
    } else if variants <= 0x1_0000 {
        2
    } else {
        4
    }
}

/// The layout of a scalar of `width` bytes.
fn measure_scalar(width: usize) -> (r: Option<Layout>)
    ensures
        r is Some <==> valid_align(width as int),
        r is Some ==> r->Some_0 == (Layout { size: width, align: width }) && width % width == 0,
{
    if is_valid_align(width) {
        proof {
            lemma_multiple_plus_align(0, width as int);
        }
        Some(Layout { size: width, align: width })
    } else {
        None
    }
}

/// The layout of an optional value, from that of its payload.
fn measure_optional(layouts: &Vec<Layout>, id: usize, payload: usize, Ghost(shapes): Ghost<
    Seq<Shape>,
>) -> (r: Option<Layout>)
    requires
        measured(shapes, layouts@, id as int),
    ensures
        r is Some <==> payload < id && align_of(shapes, payload as int) + size_of(
            shapes,
            payload as int,
        ) <= usize::MAX,
        r is Some ==> {
            &&& r->Some_0.size == align_of(shapes, payload as int) + size_of(shapes, payload as int)
            &&& r->Some_0.align == align_of(shapes, payload as int)
            &&& valid_align(r->Some_0.align as int)
            &&& r->Some_0.size % r->Some_0.align == 0
        },
{
    if payload >= id {
        return None;
    }
    let inner: Layout = layouts[payload];
    assert(layout_agrees(shapes, payload as int, layouts@[payload as int]));
    if inner.size > usize::MAX - inner.align {
        None
    } else {
        proof {
            lemma_multiple_plus_align(inner.size as int, inner.align as int);
        }
        Some(Layout { size: inner.align + inner.size, align: inner.align })
    }
}

/// Whether a union of `size` bytes and alignment `align` has room for the
/// tag that tells `variants` variants apart.
fn check_tag(variants: usize, size: usize, align: usize) -> (ok: bool)
    ensures
        ok == {
            &&& valid_align(align as int)
            &&& size % align == 0
            &&& size > 0
            &&& variants <= 0x1_0000_0000
            &&& tag_width(variants as int) <= align
        },
{
    if !is_valid_align(align) {
        return false;
    }
    if size % align != 0 || size == 0 {
        return false;
    }
    if variants as u64 > 0x1_0000_0000u64 {
        return false;
    }
    tag_width_of(variants) <= align
}

/// Works out the layout of entry `id`, given those of the entries before it;
/// `None` where the entry does not hold together.
fn measure(shapes: &Vec<Shape>, layouts: &Vec<Layout>, id: usize) -> (r: Option<Layout>)
    requires
        id < shapes@.len(),
        measured(shapes@, layouts@, id as int),
    ensures
        r is Some <==> shape_wf(shapes@, id as int),
        r is Some ==> layout_agrees(shapes@, id as int, r->Some_0),
{
    match &shapes[id] {
        Shape::Scalar { width } => measure_scalar(*width),
        Shape::Optional { payload } => measure_optional(layouts, id, *payload, Ghost(shapes@)),
        Shape::Text => Some(Layout { size: 8, align: 4 }),
        Shape::Boxed { target } => {
            if *target < shapes.len() {
                Some(Layout { size: 4, align: 4 })
            } else {
                None
            }
        },
        Shape::Sequence { element } => {
            if *element < shapes.len() {
                Some(Layout { size: 8, align: 4 })
            } else {
                None
            }
        },
        Shape::Record { fields, size, align } => {
            if !is_valid_align(*align) || *size % *align != 0 {
                return None;
            }
            if check_fields(layouts, id, fields, *size, *align, Ghost(shapes@)) {
                Some(Layout { size: *size, align: *align })
            } else {
                None
            }
        },
        Shape::Union { variants, size, align } => {
            if !check_tag(variants.len(), *size, *align) {
                return None;
            }
            if check_variants(layouts, id, variants, *size, *align, Ghost(shapes@)) {
                Some(Layout { size: *size, align: *align })
            } else {
                None
            }
        },
    }
}

impl Registry {
    /// The table holds together, and the layouts kept beside it are those
    /// of its shapes.
    pub closed spec fn wf(&self) -> bool {
        measured(self.shapes@, self.layouts@, self.shapes@.len() as int)
    }

    /// What `wf` says of the table itself.
    pub proof fn lemma_wf(&self)
        requires
            self.wf(),
        ensures
            registry_wf(self@),
    {
    }

    /// Checks a table of shapes and keeps it with its layouts. A table that
    /// does not hold together is refused.
    pub fn new(shapes: Vec<Shape>) -> (r: Option<Registry>)
        ensures
            r is Some <==> registry_wf(shapes@),
            r is Some ==> r->Some_0.wf() && r->Some_0@ == shapes@,
    {
        let mut layouts: Vec<Layout> = Vec::new();
        let mut id: usize = 0;
        while id < shapes.len()
            invariant
                measured(shapes@, layouts@, id as int),
            decreases shapes@.len() - id,
        {
            match measure(&shapes, &layouts, id) {
                Some(layout) => {
                    let ghost before = layouts@;
                    layouts.push(layout);
                    assert forall|j: int| 0 <= j < id + 1 implies layout_agrees(
                        shapes@,
                        j,
                        #[trigger] layouts@[j],
                    ) by {
                        if j < id {
                            assert(layout_agrees(shapes@, j, before[j]));
                        }
                    }
                },
                None => {
                    return None;
                },
            }
            id += 1;
        }
        Some(Registry { shapes, layouts })
    }

    /// The number of shapes in the table.
    pub fn len(&self) -> (n: usize)
        ensures
            n == self@.len(),
    {
        self.shapes.len()
    }

    /// The shape at index `id`.
    pub fn shape(&self, id: usize) -> (s: &Shape)
        requires
            id < self@.len(),
        ensures
            *s == self@[id as int],
    {
        &self.shapes[id]
    }

    /// The size of shape `id`, in bytes.
    pub fn size_of(&self, id: usize) -> (n: usize)
        requires
            self.wf(),
            id < self@.len(),
        ensures
            n == size_of(self@, id as int),
    {
        assert(layout_agrees(self.shapes@, id as int, self.layouts@[id as int]));
        self.layouts[id].size
    }

    /// The alignment of shape `id`, in bytes.
    pub fn align_of(&self, id: usize) -> (n: usize)
        requires
            self.wf(),
            id < self@.len(),
        ensures
            n == align_of(self@, id as int),
            valid_align(n as int),
    {
        assert(layout_agrees(self.shapes@, id as int, self.layouts@[id as int]));
        self.layouts[id].align
    }
}

} // verus!
