use archive_check::entry::validate;
use archive_check::error::ValidationError;
use archive_check::shape::{Field, Registry, Shape};

fn registry(shapes: Vec<Shape>) -> Registry {
    Registry::new(shapes).expect("the table of shapes holds together")
}

fn record(fields: &[(usize, usize)], size: usize, align: usize) -> Shape {
    Shape::Record {
        fields: fields.iter().map(|&(offset, shape)| Field { offset, shape }).collect(),
        size,
        align,
    }
}

fn put_u32(buf: &mut Vec<u8>, value: u32) {
    buf.extend_from_slice(&value.to_le_bytes());
}

fn put_offset(buf: &mut Vec<u8>, target: usize) {
    let here = buf.len() as i64;
    buf.extend_from_slice(&((target as i64 - here) as i32).to_le_bytes());
}

/// 0: text, 1: sequence of text, 2: reference to a sequence of text,
/// 3: a number of four bytes, 4: the record `{ a: 3, b: 0, c: 2 }`.
fn record_registry() -> Registry {
    registry(vec![
        Shape::Text,
        Shape::Sequence { element: 0 },
        Shape::Boxed { target: 1 },
        Shape::Scalar { width: 4 },
        record(&[(0, 3), (4, 0), (12, 2)], 16, 4),
    ])
}

/// The value `{ a: 42, b: "hello world", c: ["yes", "no"] }`; answers the
/// buffer and the position of the record.
fn record_archive() -> (Vec<u8>, usize) {
    let mut buf = Vec::new();
    buf.extend_from_slice(b"hello world"); // 0..11
    buf.extend_from_slice(b"yes"); // 11..14
    buf.extend_from_slice(b"no"); // 14..16
    // the two texts of the sequence, at 16 and 24
    put_offset(&mut buf, 11);
    put_u32(&mut buf, 3);
    put_offset(&mut buf, 14);
    put_u32(&mut buf, 2);
    // the sequence, at 32
    put_offset(&mut buf, 16);
    put_u32(&mut buf, 2);
    // the record, at 40
    put_u32(&mut buf, 42);
    put_offset(&mut buf, 0);
    put_u32(&mut buf, 11);
    put_offset(&mut buf, 32);
    (buf, 40)
}

#[test]
fn view_round_trips_a_record() {
    let reg = record_registry();
    let (buf, pos) = record_archive();
    let view = validate(&reg, &buf, 4, pos).unwrap();
    assert_eq!(view.pos(), 40);
    assert_eq!(view.shape(), 4);

    let a = view.field(0).unwrap();
    assert_eq!(a.scalar(), Some(42));
    assert_eq!(a.pos(), 40);

    let b = view.field(1).unwrap();
    assert_eq!(b.text(), Some(&b"hello world"[..]));

    let c = view.field(2).unwrap();
    let seq = c.target().unwrap();
    assert_eq!(seq.pos(), 32);
    assert_eq!(seq.count(), Some(2));
    assert_eq!(seq.element(0).unwrap().text(), Some(&b"yes"[..]));
    assert_eq!(seq.element(1).unwrap().text(), Some(&b"no"[..]));
    assert!(seq.element(2).is_none());

    assert!(view.field(3).is_none());
}

#[test]
fn view_answers_nothing_for_another_kind() {
    let reg = record_registry();
    let (buf, pos) = record_archive();
    let view = validate(&reg, &buf, 4, pos).unwrap();
    assert_eq!(view.scalar(), None);
    assert!(view.text().is_none());
    assert!(view.target().is_none());
    assert!(view.payload().is_none());
    assert!(view.count().is_none());
    assert!(view.element(0).is_none());
    assert!(view.tag().is_none());
    assert!(view.variant().is_none());
    let a = view.field(0).unwrap();
    assert!(a.field(0).is_none());
}

#[test]
fn view_own_bytes_are_the_value() {
    let reg = record_registry();
    let (buf, pos) = record_archive();
    let view = validate(&reg, &buf, 4, pos).unwrap();
    assert_eq!(view.own_bytes(), &buf[40..56]);
    assert_eq!(view.field(0).unwrap().own_bytes(), &[42, 0, 0, 0]);
}

#[test]
fn view_kind_is_the_shape() {
    let reg = record_registry();
    let (buf, pos) = record_archive();
    let view = validate(&reg, &buf, 4, pos).unwrap();
    assert!(matches!(view.kind(), Shape::Record { size: 16, align: 4, .. }));
    assert!(matches!(view.field(1).unwrap().kind(), Shape::Text));
}

#[test]
fn view_of_optional_text() {
    let reg = registry(vec![Shape::Text, Shape::Optional { payload: 0 }]);
    let buf = [
        1u8, 0, 0, 0, 8, 0, 0, 0, 11, 0, 0, 0, 0x48, 0x65, 0x6c, 0x6c, 0x6f, 0x20, 0x77, 0x6f,
        0x72, 0x6c, 0x64,
    ];
    let view = validate(&reg, &buf, 1, 0).unwrap();
    let payload = view.payload().unwrap();
    assert_eq!(payload.pos(), 4);
    assert_eq!(payload.shape(), 0);
    assert_eq!(payload.text(), Some(&b"Hello world"[..]));

    let absent = [0u8, 0, 0, 0, 0, 0, 0, 0, 0, 0, 0, 0];
    let view = validate(&reg, &absent, 1, 0).unwrap();
    assert!(view.payload().is_none());
}

#[test]
fn view_of_scalars_of_every_width() {
    let reg = registry(vec![
        Shape::Scalar { width: 1 },
        Shape::Scalar { width: 2 },
        Shape::Scalar { width: 4 },
        Shape::Scalar { width: 8 },
        Shape::Scalar { width: 16 },
    ]);
    let buf: Vec<u8> = (1u8..=16).collect();
    assert_eq!(validate(&reg, &buf, 0, 3).unwrap().scalar(), Some(0x04));
    assert_eq!(validate(&reg, &buf, 1, 2).unwrap().scalar(), Some(0x0403));
    assert_eq!(validate(&reg, &buf, 2, 4).unwrap().scalar(), Some(0x0807_0605));
    assert_eq!(validate(&reg, &buf, 3, 8).unwrap().scalar(), Some(0x100f_0e0d_0c0b_0a09));
    assert_eq!(validate(&reg, &buf, 3, 0).unwrap().scalar(), Some(0x0807_0605_0403_0201));
    // Sixteen bytes do not fit the answer.
    assert_eq!(validate(&reg, &buf, 4, 0).unwrap().scalar(), None);
    assert_eq!(validate(&reg, &buf, 1, 1).unwrap_err(), ValidationError::Misaligned);
    assert_eq!(validate(&reg, &buf, 3, 12).unwrap_err(), ValidationError::Overrun);
}

/// 0: unit, 1: a number of four bytes, 2: variant with a number behind a
/// tag of one byte, 3: the union of 0 and 2.
fn union_registry() -> Registry {
    registry(vec![
        Shape::Record { fields: vec![], size: 0, align: 1 },
        Shape::Scalar { width: 4 },
        record(&[(4, 1)], 8, 4),
        Shape::Union { variants: vec![0, 2], size: 8, align: 4 },
    ])
}

#[test]
fn view_of_union_variants() {
    let reg = union_registry();
    let buf = [1u8, 0, 0, 0, 7, 0, 0, 0];
    let view = validate(&reg, &buf, 3, 0).unwrap();
    assert_eq!(view.tag(), Some(1));
    let variant = view.variant().unwrap();
    assert_eq!(variant.shape(), 2);
    assert_eq!(variant.pos(), 0);
    assert_eq!(variant.field(0).unwrap().scalar(), Some(7));

    let buf = [0u8, 9, 9, 9, 9, 9, 9, 9];
    let view = validate(&reg, &buf, 3, 0).unwrap();
    assert_eq!(view.tag(), Some(0));
    let variant = view.variant().unwrap();
    assert_eq!(variant.shape(), 0);
    assert!(variant.field(0).is_none());
}

#[test]
fn wide_tags_are_read_least_significant_byte_first() {
    // 300 variants need a tag of two bytes.
    let reg = registry(vec![
        Shape::Record { fields: vec![], size: 0, align: 1 },
        Shape::Union { variants: vec![0; 300], size: 2, align: 2 },
    ]);
    let view = validate(&reg, &[0x2b, 0x01], 1, 0).unwrap();
    assert_eq!(view.tag(), Some(299));
    assert_eq!(validate(&reg, &[0x2c, 0x01], 1, 0).unwrap_err(), ValidationError::InvalidDiscriminant);
    assert_eq!(validate(&reg, &[0x00, 0x02], 1, 0).unwrap_err(), ValidationError::InvalidDiscriminant);
    assert_eq!(validate(&reg, &[0xff, 0x00], 1, 0).unwrap().tag(), Some(255));
}

#[test]
fn boolean_is_a_union_of_two_units() {
    let reg = registry(vec![
        Shape::Record { fields: vec![], size: 0, align: 1 },
        Shape::Union { variants: vec![0, 0], size: 1, align: 1 },
    ]);
    assert_eq!(validate(&reg, &[0], 1, 0).unwrap().tag(), Some(0));
    assert_eq!(validate(&reg, &[1], 1, 0).unwrap().tag(), Some(1));
    assert_eq!(validate(&reg, &[2], 1, 0).unwrap_err(), ValidationError::InvalidDiscriminant);
}

/// 0: a number of four bytes, 1: sequence of numbers, 2: sequence of
/// sequences of numbers.
fn nested_sequences() -> Registry {
    registry(vec![
        Shape::Scalar { width: 4 },
        Shape::Sequence { element: 0 },
        Shape::Sequence { element: 1 },
    ])
}

#[test]
fn view_of_nested_sequences() {
    let mut buf = Vec::new();
    for v in [10u32, 20, 30] {
        put_u32(&mut buf, v); // numbers at 0, 4, 8
    }
    // the two inner sequences, at 12 and 20
    put_offset(&mut buf, 0);
    put_u32(&mut buf, 2);
    put_offset(&mut buf, 8);
    put_u32(&mut buf, 1);
    // the outer sequence, at 28
    put_offset(&mut buf, 12);
    put_u32(&mut buf, 2);
    let reg = nested_sequences();
    let view = validate(&reg, &buf, 2, 28).unwrap();
    assert_eq!(view.count(), Some(2));
    let first = view.element(0).unwrap();
    assert_eq!(first.count(), Some(2));
    assert_eq!(first.element(0).unwrap().scalar(), Some(10));
    assert_eq!(first.element(1).unwrap().scalar(), Some(20));
    let second = view.element(1).unwrap();
    assert_eq!(second.count(), Some(1));
    assert_eq!(second.element(0).unwrap().scalar(), Some(30));
    assert_eq!(second.element(0).unwrap().pos(), 8);
}

#[test]
fn sequences_that_share_elements_overlap() {
    let mut buf = Vec::new();
    for v in [10u32, 20, 30] {
        put_u32(&mut buf, v);
    }
    put_offset(&mut buf, 0);
    put_u32(&mut buf, 2); // [0, 8)
    put_offset(&mut buf, 4);
    put_u32(&mut buf, 2); // [4, 12)
    put_offset(&mut buf, 12);
    put_u32(&mut buf, 2);
    let reg = nested_sequences();
    assert_eq!(validate(&reg, &buf, 2, 28).unwrap_err(), ValidationError::OverlappingClaim);
}

#[test]
fn sequence_faults() {
    let reg = nested_sequences();
    // Target not aligned for its elements.
    let mut buf = vec![0u8; 8];
    put_offset(&mut buf, 2);
    put_u32(&mut buf, 1);
    assert_eq!(validate(&reg, &buf, 1, 8).unwrap_err(), ValidationError::Misaligned);
    // More elements than the archive holds.
    let mut buf = vec![0u8; 8];
    put_offset(&mut buf, 0);
    put_u32(&mut buf, 5);
    assert_eq!(validate(&reg, &buf, 1, 8).unwrap_err(), ValidationError::OutOfBounds);
    // A count whose range does not fit any archive.
    let mut buf = vec![0u8; 8];
    put_offset(&mut buf, 0);
    put_u32(&mut buf, 0xffff_ffff);
    assert_eq!(validate(&reg, &buf, 1, 8).unwrap_err(), ValidationError::OutOfBounds);
    // Target before the start of the archive.
    let mut buf = vec![0u8; 8];
    buf.extend_from_slice(&(-9i32).to_le_bytes());
    put_u32(&mut buf, 0);
    assert_eq!(validate(&reg, &buf, 1, 8).unwrap_err(), ValidationError::OutOfBounds);
    // An empty sequence at the very end is fine.
    let mut buf = vec![0u8; 8];
    buf.extend_from_slice(&8i32.to_le_bytes());
    put_u32(&mut buf, 0);
    let view = validate(&reg, &buf, 1, 8).unwrap();
    assert_eq!(view.count(), Some(0));
    assert!(view.element(0).is_none());
    // A sequence that holds its own reference is a cycle.
    let mut buf = vec![0u8; 8];
    put_offset(&mut buf, 4);
    put_u32(&mut buf, 2);
    assert_eq!(validate(&reg, &buf, 1, 8).unwrap_err(), ValidationError::CyclicClaim);
}

#[test]
fn text_faults() {
    let reg = registry(vec![Shape::Text]);
    // Longer than what is left of the archive.
    let buf = [8u8, 0, 0, 0, 4, 0, 0, 0, b'a', b'b', b'c'];
    assert_eq!(validate(&reg, &buf, 0, 0).unwrap_err(), ValidationError::OutOfBounds);
    // Target behind the end.
    let buf = [12u8, 0, 0, 0, 0, 0, 0, 0, b'a', b'b', b'c'];
    assert_eq!(validate(&reg, &buf, 0, 0).unwrap_err(), ValidationError::OutOfBounds);
    // Empty text at the end.
    let buf = [11u8, 0, 0, 0, 0, 0, 0, 0, b'a', b'b', b'c'];
    assert_eq!(validate(&reg, &buf, 0, 0).unwrap().text(), Some(&b""[..]));
    // A text that covers its own reference is a cycle.
    let buf = [0u8, 0, 0, 0, 8, 0, 0, 0];
    assert_eq!(validate(&reg, &buf, 0, 0).unwrap_err(), ValidationError::CyclicClaim);
    // Bytes that are no text in any encoding are still bytes.
    let buf = [8u8, 0, 0, 0, 2, 0, 0, 0, 0xff, 0xfe];
    assert_eq!(validate(&reg, &buf, 0, 0).unwrap().text(), Some(&[0xffu8, 0xfe][..]));
}

#[test]
fn boxed_faults() {
    // 0: a number of four bytes, 1: reference to it.
    let reg = registry(vec![Shape::Scalar { width: 4 }, Shape::Boxed { target: 0 }]);
    let mut buf = vec![7u8, 0, 0, 0];
    put_offset(&mut buf, 0);
    let view = validate(&reg, &buf, 1, 4).unwrap();
    assert_eq!(view.target().unwrap().scalar(), Some(7));
    // Target at the end: nothing of it is inside.
    let buf = [4u8, 0, 0, 0];
    assert_eq!(validate(&reg, &buf, 1, 0).unwrap_err(), ValidationError::OutOfBounds);
    // Target crosses the end.
    let buf = [4u8, 0, 0, 0, 1, 2];
    assert_eq!(validate(&reg, &buf, 1, 0).unwrap_err(), ValidationError::Overrun);
    // Target not aligned.
    let buf = [5u8, 0, 0, 0, 1, 2, 3, 4, 5, 6];
    assert_eq!(validate(&reg, &buf, 1, 0).unwrap_err(), ValidationError::Misaligned);
    // Target is the reference itself.
    let buf = [0u8, 0, 0, 0];
    assert_eq!(validate(&reg, &buf, 1, 0).unwrap_err(), ValidationError::CyclicClaim);
    // The reference's own bytes cross the end.
    let buf = [0u8, 0, 0, 0, 0, 0];
    assert_eq!(validate(&reg, &buf, 1, 4).unwrap_err(), ValidationError::Overrun);
}

#[test]
fn reference_to_unit_claims_nothing() {
    // 0: unit, 1: reference to unit, 2: two such references.
    let reg = registry(vec![
        Shape::Record { fields: vec![], size: 0, align: 1 },
        Shape::Boxed { target: 0 },
        record(&[(0, 1), (4, 1)], 8, 4),
    ]);
    // Both point at position 2, inside the record itself.
    let buf = [2u8, 0, 0, 0, 254, 255, 255, 255];
    assert!(validate(&reg, &buf, 2, 0).is_ok());
}

#[test]
fn first_failing_field_decides() {
    // 0: text, 1: optional text, 2: record of an optional text and a text.
    let reg = registry(vec![
        Shape::Text,
        Shape::Optional { payload: 0 },
        record(&[(0, 1), (12, 0)], 20, 4),
    ]);
    // The optional has tag 3, and the text behind it points outside.
    let mut buf = vec![3u8, 0, 0, 0, 0, 0, 0, 0, 0, 0, 0, 0];
    buf.extend_from_slice(&100i32.to_le_bytes());
    put_u32(&mut buf, 0);
    assert_eq!(validate(&reg, &buf, 2, 0).unwrap_err(), ValidationError::InvalidDiscriminant);
    // With the optional absent the text is reached.
    buf[0] = 0;
    assert_eq!(validate(&reg, &buf, 2, 0).unwrap_err(), ValidationError::OutOfBounds);
}

#[test]
fn many_texts_are_validated_quickly() {
    // A sequence of 20000 texts of three bytes each.
    let n = 20000usize;
    let mut buf = Vec::new();
    for i in 0..n {
        buf.extend_from_slice(&[b'a' + (i % 26) as u8; 3]);
    }
    while buf.len() % 4 != 0 {
        buf.push(0);
    }
    let items = buf.len();
    // Written back to front, so that commits do not come in order.
    for i in 0..n {
        put_offset(&mut buf, 3 * (n - 1 - i));
        put_u32(&mut buf, 3);
    }
    let seq = buf.len();
    put_offset(&mut buf, items);
    put_u32(&mut buf, n as u32);
    let reg = registry(vec![Shape::Text, Shape::Sequence { element: 0 }]);
    let view = validate(&reg, &buf, 1, seq).unwrap();
    assert_eq!(view.count(), Some(n));
    assert_eq!(view.element(0).unwrap().text(), Some(&[b'a' + ((n - 1) % 26) as u8; 3][..]));
    assert_eq!(view.element(n - 1).unwrap().text(), Some(&b"aaa"[..]));
    // One more text that points into the middle of them.
    let mut bad = buf.clone();
    let extra = bad.len();
    put_offset(&mut bad, 3 * 777 + 1);
    put_u32(&mut bad, 1);
    let reg = registry(vec![
        Shape::Text,
        Shape::Sequence { element: 0 },
        record(&[(0, 1), (8, 0)], 16, 4),
    ]);
    assert_eq!(seq + 8, extra);
    assert_eq!(validate(&reg, &bad, 2, seq).unwrap_err(), ValidationError::OverlappingClaim);
}

#[test]
fn sequence_of_units_is_validated_at_once() {
    // 0: unit, 1: sequence of units, 2: a unit aligned to four bytes,
    // 3: sequence of those.
    let reg = registry(vec![
        Shape::Record { fields: vec![], size: 0, align: 1 },
        Shape::Sequence { element: 0 },
        Shape::Record { fields: vec![], size: 0, align: 4 },
        Shape::Sequence { element: 2 },
    ]);
    // As many units as a count can say, all of them at position 3.
    let mut buf = Vec::new();
    buf.extend_from_slice(&3i32.to_le_bytes());
    put_u32(&mut buf, 0xffff_ffff);
    let view = validate(&reg, &buf, 1, 0).unwrap();
    assert_eq!(view.count(), Some(0xffff_ffff));
    assert_eq!(view.element(0).unwrap().pos(), 3);
    assert_eq!(view.element(0xffff_fffe).unwrap().pos(), 3);
    assert!(view.element(0xffff_ffff).is_none());
    // The aligned units cannot stand at position 3.
    assert_eq!(validate(&reg, &buf, 3, 0).unwrap_err(), ValidationError::Misaligned);
    buf[0] = 4;
    assert!(validate(&reg, &buf, 3, 0).is_ok());
}
