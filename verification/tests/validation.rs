use archive_check::claims::ArchiveContext;
use archive_check::entry::validate;
use archive_check::error::ValidationError;
use archive_check::extent::check_extent;
use archive_check::shape::{Field, Registry, Shape};
use archive_check::span::Span;
use archive_check::wire::{read_offset, read_u8, resolve};

const BUFFER_SIZE: usize = 256;

/// Lays values out the way an archive writer does: what a reference points
/// to is written first, the value that holds the reference after it, each at
/// the next position that its alignment allows.
struct Writer {
    buf: Vec<u8>,
}

impl Writer {
    fn new() -> Self {
        Writer { buf: Vec::new() }
    }

    fn align(&mut self, align: usize) -> usize {
        while self.buf.len() % align != 0 {
            self.buf.push(0);
        }
        self.buf.len()
    }

    fn raw(&mut self, bytes: &[u8]) -> usize {
        let pos = self.buf.len();
        self.buf.extend_from_slice(bytes);
        pos
    }

    fn u32(&mut self, value: u32) {
        self.buf.extend_from_slice(&value.to_le_bytes());
    }

    fn tag(&mut self, tag: u8, width: usize) {
        self.buf.push(tag);
        for _ in 1..width {
            self.buf.push(0);
        }
    }

    fn rel_ptr(&mut self, target: usize) {
        let here = self.buf.len() as i64;
        let offset = (target as i64 - here) as i32;
        self.buf.extend_from_slice(&offset.to_le_bytes());
    }

    fn fat_ptr(&mut self, target: usize, len: usize) {
        self.rel_ptr(target);
        self.u32(len as u32);
    }

    fn pad_to(&mut self, pos: usize) {
        while self.buf.len() < pos {
            self.buf.push(0);
        }
    }

    fn into_inner(mut self) -> Vec<u8> {
        assert!(self.buf.len() <= BUFFER_SIZE);
        self.buf.resize(BUFFER_SIZE, 0);
        self.buf
    }
}

fn registry(shapes: Vec<Shape>) -> Registry {
    Registry::new(shapes).expect("the table of shapes holds together")
}

fn unit() -> Shape {
    Shape::Record { fields: vec![], size: 0, align: 1 }
}

fn record(fields: &[(usize, usize)], size: usize, align: usize) -> Shape {
    Shape::Record {
        fields: fields.iter().map(|&(offset, shape)| Field { offset, shape }).collect(),
        size,
        align,
    }
}

/// 0: text, 1: optional text.
fn optional_text() -> Registry {
    registry(vec![Shape::Text, Shape::Optional { payload: 0 }])
}

/// 0: a number of four bytes.
fn number() -> Registry {
    registry(vec![Shape::Scalar { width: 4 }])
}

/// 0: text, 1: sequence of text, 2: reference to a sequence of text,
/// 3: a number of four bytes.
fn common() -> Vec<Shape> {
    vec![
        Shape::Text,
        Shape::Sequence { element: 0 },
        Shape::Boxed { target: 1 },
        Shape::Scalar { width: 4 },
    ]
}

/// Writes a sequence of texts and a reference to it; answers where the
/// sequence's own reference stands.
fn write_texts(w: &mut Writer, texts: &[&str]) -> usize {
    let mut targets = Vec::new();
    for t in texts {
        targets.push(w.raw(t.as_bytes()));
    }
    let items = w.align(4);
    for (t, target) in texts.iter().zip(targets) {
        w.fat_ptr(target, t.len());
    }
    let seq = w.align(4);
    w.fat_ptr(items, texts.len());
    seq
}

#[test]
fn basic_functionality() {
    // A value as a writer lays it out: the text first, the optional behind it.
    let mut writer = Writer::new();
    let text = writer.raw("Hello world".as_bytes());
    let pos = writer.align(4);
    writer.tag(1, 4);
    writer.fat_ptr(text, 11);
    let buf = writer.into_inner();

    let reg = optional_text();
    let result = validate(&reg, &buf, 1, pos);
    result.unwrap();

    // Synthetic archive (correct)
    let synthetic_buf = [
        1u8, 0u8, 0u8, 0u8, // Some + padding
        8u8, 0u8, 0u8, 0u8, // points 8 bytes forward
        11u8, 0u8, 0u8, 0u8, // string is 11 characters long
        // "Hello world"
        0x48, 0x65, 0x6c, 0x6c, 0x6f, 0x20, 0x77, 0x6f, 0x72, 0x6c, 0x64,
    ];

    let result = validate(&reg, &synthetic_buf, 1, 0);
    result.unwrap();

    // Various buffer errors:
    let reg = number();
    // Out of bounds
    validate(&reg, &[0, 1, 2, 3, 4], 0, 5).unwrap_err();
    // Overrun
    validate(&reg, &[0, 1, 2, 3, 4], 0, 2).unwrap_err();
    // Unaligned
    validate(&reg, &[0, 1, 2, 3, 4], 0, 1).unwrap_err();
}

#[test]
fn buffer_errors_by_kind() {
    let reg = number();
    assert_eq!(validate(&reg, &[0, 1, 2, 3, 4], 0, 5).unwrap_err(), ValidationError::OutOfBounds);
    assert_eq!(validate(&reg, &[0, 1, 2, 3, 4], 0, 2).unwrap_err(), ValidationError::Overrun);
    assert_eq!(validate(&reg, &[0, 1, 2, 3, 4], 0, 1).unwrap_err(), ValidationError::Misaligned);
    assert_eq!(validate(&reg, &[0, 1, 2, 3, 4], 0, 6).unwrap_err(), ValidationError::OutOfBounds);
    assert!(validate(&reg, &[0, 1, 2, 3, 4], 0, 0).is_ok());
    assert_eq!(validate(&reg, &[], 0, 0).unwrap_err(), ValidationError::OutOfBounds);
}

#[test]
fn invalid_tags() {
    // Invalid archive (invalid tag)
    let synthetic_buf = [
        2u8, 0u8, 0u8, 0u8, // invalid tag + padding
        8u8, 0u8, 0u8, 0u8, // points 8 bytes forward
        11u8, 0u8, 0u8, 0u8, // string is 11 characters long
        // "Hello world"
        0x48, 0x65, 0x6c, 0x6c, 0x6f, 0x20, 0x77, 0x6f, 0x72, 0x6c, 0x64,
    ];

    let reg = optional_text();
    let result = validate(&reg, &synthetic_buf, 1, 0);
    result.unwrap_err();
}

#[test]
fn invalid_tag_is_invalid_discriminant() {
    let synthetic_buf = [
        2u8, 0u8, 0u8, 0u8, 8u8, 0u8, 0u8, 0u8, 11u8, 0u8, 0u8, 0u8, 0x48, 0x65, 0x6c, 0x6c, 0x6f,
        0x20, 0x77, 0x6f, 0x72, 0x6c, 0x64,
    ];
    let reg = optional_text();
    assert_eq!(
        validate(&reg, &synthetic_buf, 1, 0).unwrap_err(),
        ValidationError::InvalidDiscriminant
    );
}

#[test]
fn absent_optional_ignores_what_follows() {
    // Tag 0: the reference behind it is never looked at, though it points
    // far outside.
    let buf = [0u8, 0, 0, 0, 0xff, 0xff, 0xff, 0x7f, 0xff, 0xff, 0xff, 0xff];
    let reg = optional_text();
    assert!(validate(&reg, &buf, 1, 0).is_ok());
}

#[test]
fn overlapping_claims() {
    // Invalid archive (overlapping claims)
    let synthetic_buf = [
        // First string
        16u8, 0u8, 0u8, 0u8, // points 16 bytes forward
        11u8, 0u8, 0u8, 0u8, // string is 11 characters long
        // Second string
        8u8, 0u8, 0u8, 0u8, // points 8 bytes forward
        11u8, 0u8, 0u8, 0u8, // string is 11 characters long
        // "Hello world"
        0x48, 0x65, 0x6c, 0x6c, 0x6f, 0x20, 0x77, 0x6f, 0x72, 0x6c, 0x64,
    ];

    let reg = registry(vec![Shape::Text, record(&[(0, 0), (8, 0)], 16, 4)]);
    validate(&reg, &synthetic_buf, 1, 0).unwrap_err();
}

#[test]
fn overlapping_claims_by_kind() {
    let synthetic_buf = [
        16u8, 0u8, 0u8, 0u8, 11u8, 0u8, 0u8, 0u8, 8u8, 0u8, 0u8, 0u8, 11u8, 0u8, 0u8, 0u8, 0x48,
        0x65, 0x6c, 0x6c, 0x6f, 0x20, 0x77, 0x6f, 0x72, 0x6c, 0x64,
    ];
    let reg = registry(vec![Shape::Text, record(&[(0, 0), (8, 0)], 16, 4)]);
    assert_eq!(
        validate(&reg, &synthetic_buf, 1, 0).unwrap_err(),
        ValidationError::OverlappingClaim
    );
    // Each text alone is fine.
    assert!(validate(&reg, &synthetic_buf, 0, 0).is_ok());
    assert!(validate(&reg, &synthetic_buf, 0, 8).is_ok());
}

#[test]
fn partly_overlapping_texts_are_refused() {
    // Two texts of six bytes, the second starting in the middle of the first.
    let mut buf = vec![
        16u8, 0, 0, 0, 6, 0, 0, 0, // [16, 22)
        11u8, 0, 0, 0, 6, 0, 0, 0, // [19, 25)
    ];
    buf.extend_from_slice(b"abcdefghi");
    let reg = registry(vec![Shape::Text, record(&[(0, 0), (8, 0)], 16, 4)]);
    assert_eq!(validate(&reg, &buf, 1, 0).unwrap_err(), ValidationError::OverlappingClaim);
}

#[test]
fn adjacent_texts_are_accepted() {
    let mut buf = vec![
        16u8, 0, 0, 0, 3, 0, 0, 0, // [16, 19)
        11u8, 0, 0, 0, 6, 0, 0, 0, // [19, 25)
    ];
    buf.extend_from_slice(b"abcdefghi");
    let reg = registry(vec![Shape::Text, record(&[(0, 0), (8, 0)], 16, 4)]);
    assert!(validate(&reg, &buf, 1, 0).is_ok());
}

#[test]
fn empty_texts_may_share_a_position() {
    let buf = [
        16u8, 0, 0, 0, 0, 0, 0, 0, // empty, at 16
        8u8, 0, 0, 0, 0, 0, 0, 0, // empty, at 16
    ];
    let reg = registry(vec![Shape::Text, record(&[(0, 0), (8, 0)], 16, 4)]);
    assert!(validate(&reg, &buf, 1, 0).is_ok());
}

/// 0: the unit record, 1: reference to a node, 2: the variant that holds
/// such a reference, 3: the node.
fn node() -> Registry {
    registry(vec![
        unit(),
        Shape::Boxed { target: 3 },
        record(&[(4, 1)], 8, 4),
        Shape::Union { variants: vec![0, 2], size: 8, align: 4 },
    ])
}

/// A rule written by hand from the engine's steps, for the node type: it
/// wraps whatever goes wrong below it.
fn check_node(ctx: &mut ArchiveContext, pos: usize) -> Result<(), ValidationError> {
    let bytes = ctx.bytes();
    check_extent(bytes.len(), pos, 8, 4)?;
    let tag = read_u8(bytes, pos);
    match tag {
        0 => (),
        1 => {
            check_node_ref(ctx, pos + 4).map_err(ValidationError::nested)?;
        }
        _ => panic!(),
    }
    Ok(())
}

fn check_node_ref(ctx: &mut ArchiveContext, pos: usize) -> Result<(), ValidationError> {
    let bytes = ctx.bytes();
    check_extent(bytes.len(), pos, 4, 4)?;
    let target = resolve(pos, read_offset(bytes, pos), bytes.len())?;
    check_extent(bytes.len(), target, 8, 4)?;
    let guard = ctx.enter(Span::new(target, target + 8))?;
    let inner = check_node(ctx, target);
    assert!(ctx.is_innermost(&guard));
    ctx.exit(guard);
    inner
}

#[test]
fn cycle_detection() {
    // Invalid archive (cyclic claims)
    let synthetic_buf = [
        // First node
        1u8, 0u8, 0u8, 0u8, // Cons
        4u8, 0u8, 0u8, 0u8, // Node is 4 bytes forward
        // Second string
        1u8, 0u8, 0u8, 0u8, // Cons
        244u8, 255u8, 255u8, 255u8, // Node is 12 bytes back
    ];

    validate(&node(), &synthetic_buf, 3, 0).unwrap_err();

    // The same with the rule written by hand.
    let mut ctx = ArchiveContext::new(&synthetic_buf);
    let guard = ctx.enter(Span::new(0, 8)).unwrap();
    let result = check_node(&mut ctx, 0);
    ctx.exit(guard);
    result.unwrap_err();
}

#[test]
fn cycle_is_cyclic_claim() {
    let synthetic_buf = [
        1u8, 0u8, 0u8, 0u8, 4u8, 0u8, 0u8, 0u8, 1u8, 0u8, 0u8, 0u8, 244u8, 255u8, 255u8, 255u8,
    ];
    assert_eq!(validate(&node(), &synthetic_buf, 3, 0).unwrap_err(), ValidationError::CyclicClaim);

    let mut ctx = ArchiveContext::new(&synthetic_buf);
    let guard = ctx.enter(Span::new(0, 8)).unwrap();
    let result = check_node(&mut ctx, 0);
    ctx.exit(guard);
    let err = result.unwrap_err();
    assert_eq!(
        err,
        ValidationError::Nested(Box::new(ValidationError::Nested(Box::new(
            ValidationError::CyclicClaim
        ))))
    );
    assert_eq!(err.into_root_cause(), ValidationError::CyclicClaim);
    assert_eq!(ctx.depth(), 0);
}

#[test]
fn node_pointing_at_itself_is_a_cycle() {
    let buf = [1u8, 0, 0, 0, 252, 255, 255, 255];
    assert_eq!(validate(&node(), &buf, 3, 0).unwrap_err(), ValidationError::CyclicClaim);
}

#[test]
fn list_of_nodes_is_accepted() {
    // Three nodes in a row, the last one the end of the list.
    let buf = [
        1u8, 0, 0, 0, 4, 0, 0, 0, // at 0, next at 8
        1u8, 0, 0, 0, 4, 0, 0, 0, // at 8, next at 16
        0u8, 0, 0, 0, 0, 0, 0, 0, // at 16
    ];
    assert!(validate(&node(), &buf, 3, 0).is_ok());
    // Two lists that share their tail: the tail is claimed twice.
    let buf = [
        1u8, 0, 0, 0, 12, 0, 0, 0, // at 0, next at 16
        1u8, 0, 0, 0, 4, 0, 0, 0, // at 8, next at 16
        0u8, 0, 0, 0, 0, 0, 0, 0, // at 16
    ];
    let reg = registry(vec![
        unit(),
        Shape::Boxed { target: 3 },
        record(&[(4, 1)], 8, 4),
        Shape::Union { variants: vec![0, 2], size: 8, align: 4 },
        record(&[(0, 3), (8, 3)], 16, 4),
    ]);
    assert_eq!(validate(&reg, &buf, 4, 0).unwrap_err(), ValidationError::OverlappingClaim);
}

#[test]
fn unknown_union_tag_is_refused_before_the_payload() {
    // Tag 2 of a union with two variants; the bytes behind it would point
    // outside.
    let buf = [2u8, 0, 0, 0, 0xff, 0xff, 0xff, 0x7f];
    assert_eq!(validate(&node(), &buf, 3, 0).unwrap_err(), ValidationError::InvalidDiscriminant);
}

#[test]
fn derive_unit_struct() {
    let writer = Writer::new();
    let pos = 0;
    let buf = writer.into_inner();
    let reg = registry(vec![unit()]);
    validate(&reg, &buf, 0, pos).unwrap();
}

#[test]
fn unit_is_valid_at_every_position_up_to_the_end() {
    let reg = registry(vec![unit()]);
    assert!(validate(&reg, &[], 0, 0).is_ok());
    assert!(validate(&reg, &[1, 2, 3], 0, 3).is_ok());
    assert_eq!(validate(&reg, &[1, 2, 3], 0, 4).unwrap_err(), ValidationError::OutOfBounds);
}

/// The record `{ a: number, b: text, c: reference to texts }`, at index 4.
fn test_record() -> Registry {
    let mut shapes = common();
    shapes.push(record(&[(0, 3), (4, 0), (12, 2)], 16, 4));
    registry(shapes)
}

fn write_test_record(w: &mut Writer) -> usize {
    let b = w.raw("hello world".as_bytes());
    let c = write_texts(w, &["yes", "no"]);
    let pos = w.align(4);
    w.u32(42);
    w.fat_ptr(b, 11);
    w.rel_ptr(c);
    pos
}

#[test]
fn derive_struct() {
    let mut writer = Writer::new();
    let pos = write_test_record(&mut writer);
    let buf = writer.into_inner();
    validate(&test_record(), &buf, 4, pos).unwrap();
}

#[test]
fn derive_tuple_struct() {
    // A tuple record is laid out as a record is: fields at fixed offsets.
    let mut writer = Writer::new();
    let pos = write_test_record(&mut writer);
    let buf = writer.into_inner();
    validate(&test_record(), &buf, 4, pos).unwrap();
}

/// The union `A(number) | B(text) | C(reference to texts)`, at index 7.
fn test_union() -> Registry {
    let mut shapes = common();
    shapes.push(record(&[(4, 3)], 8, 4));
    shapes.push(record(&[(4, 0)], 12, 4));
    shapes.push(record(&[(4, 2)], 8, 4));
    shapes.push(Shape::Union { variants: vec![4, 5, 6], size: 12, align: 4 });
    registry(shapes)
}

#[test]
fn derive_enum() {
    let reg = test_union();

    let mut writer = Writer::new();
    let pos = writer.align(4);
    writer.tag(0, 4);
    writer.u32(42);
    writer.pad_to(pos + 12);
    let buf = writer.into_inner();
    validate(&reg, &buf, 7, pos).unwrap();

    let mut writer = Writer::new();
    let text = writer.raw("hello world".as_bytes());
    let pos = writer.align(4);
    writer.tag(1, 4);
    writer.fat_ptr(text, 11);
    let buf = writer.into_inner();
    validate(&reg, &buf, 7, pos).unwrap();

    let mut writer = Writer::new();
    let texts = write_texts(&mut writer, &["yes", "no"]);
    let pos = writer.align(4);
    writer.tag(2, 4);
    writer.rel_ptr(texts);
    writer.pad_to(pos + 12);
    let buf = writer.into_inner();
    validate(&reg, &buf, 7, pos).unwrap();
}

#[test]
fn union_with_unknown_tag_is_refused() {
    let reg = test_union();
    let mut writer = Writer::new();
    let pos = writer.align(4);
    writer.tag(3, 4);
    writer.u32(42);
    writer.pad_to(pos + 12);
    let buf = writer.into_inner();
    assert_eq!(validate(&reg, &buf, 7, pos).unwrap_err(), ValidationError::InvalidDiscriminant);
}

#[test]
fn validation_keeps_no_memory() {
    let mut writer = Writer::new();
    let pos = write_test_record(&mut writer);
    let buf = writer.into_inner();
    let reg = test_record();
    let first = validate(&reg, &buf, 4, pos).unwrap();
    let second = validate(&reg, &buf, 4, pos).unwrap();
    assert_eq!(first.pos(), second.pos());
    assert_eq!(first.shape(), second.shape());

    let bad = [1u8, 0, 0, 0, 4, 0, 0, 0, 1, 0, 0, 0, 244, 255, 255, 255];
    let reg = node();
    assert_eq!(validate(&reg, &bad, 3, 0).unwrap_err(), validate(&reg, &bad, 3, 0).unwrap_err());
}

#[test]
fn a_context_that_is_used_again_remembers() {
    // The same value validated twice in one context is claimed twice.
    let buf = [8u8, 0, 0, 0, 3, 0, 0, 0, b'a', b'b', b'c'];
    let reg = registry(vec![Shape::Text]);
    let mut ctx = ArchiveContext::new(&buf);
    assert_eq!(ctx.validate_owned(&reg, 0, 0), Ok(()));
    assert_eq!(ctx.validate_owned(&reg, 0, 0), Err(ValidationError::OverlappingClaim));
    assert_eq!(ctx.depth(), 0);
}

#[test]
fn success_implies_bounds() {
    let reg = number();
    let buf = [0u8; 16];
    for pos in 0..20 {
        let ok = validate(&reg, &buf, 0, pos).is_ok();
        assert_eq!(ok, pos + 4 <= buf.len() && pos % 4 == 0);
    }
}

#[test]
fn deeply_nested_list_is_validated_without_deep_calls() {
    // A list of 10000 nodes, each pointing at the next.
    let n = 10000usize;
    let mut buf = Vec::with_capacity(8 * n);
    for i in 0..n {
        if i + 1 < n {
            buf.extend_from_slice(&[1, 0, 0, 0, 4, 0, 0, 0]);
        } else {
            buf.extend_from_slice(&[0, 0, 0, 0, 0, 0, 0, 0]);
        }
    }
    let reg = node();
    let view = validate(&reg, &buf, 3, 0).unwrap();
    let mut at = view;
    let mut seen = 1usize;
    while at.tag() == Some(1) {
        at = at.variant().unwrap().field(0).unwrap().target().unwrap();
        seen += 1;
    }
    assert_eq!(seen, n);
    assert_eq!(at.pos(), 8 * (n - 1));
    // The last node points back at the first: a cycle, found at the very
    // bottom, with every range on the way closed again.
    let last = 8 * (n - 1);
    buf[last] = 1;
    buf[last + 4..last + 8].copy_from_slice(&(-((last + 4) as i32)).to_le_bytes());
    assert_eq!(validate(&reg, &buf, 3, 0).unwrap_err(), ValidationError::CyclicClaim);
    let mut ctx = ArchiveContext::new(&buf);
    assert_eq!(ctx.validate_owned(&reg, 3, 0), Err(ValidationError::CyclicClaim));
    assert_eq!(ctx.depth(), 0);
}
