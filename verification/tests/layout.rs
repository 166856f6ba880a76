use archive_check::shape::{tag_width_of, Field, Registry, Shape};

fn record(fields: &[(usize, usize)], size: usize, align: usize) -> Shape {
    Shape::Record {
        fields: fields.iter().map(|&(offset, shape)| Field { offset, shape }).collect(),
        size,
        align,
    }
}

fn accepted(shapes: Vec<Shape>) -> bool {
    Registry::new(shapes).is_some()
}

#[test]
fn layouts_of_the_built_in_kinds() {
    let reg = Registry::new(vec![
        Shape::Scalar { width: 1 },
        Shape::Scalar { width: 8 },
        Shape::Text,
        Shape::Boxed { target: 0 },
        Shape::Sequence { element: 1 },
        Shape::Optional { payload: 0 },
        Shape::Optional { payload: 1 },
        Shape::Optional { payload: 2 },
        Shape::Optional { payload: 5 },
        record(&[], 0, 1),
        Shape::Optional { payload: 9 },
        record(&[(0, 1), (8, 0)], 16, 8),
        Shape::Union { variants: vec![9, 9], size: 1, align: 1 },
    ])
    .unwrap();
    assert_eq!(reg.len(), 13);
    let layouts: Vec<(usize, usize)> =
        (0..reg.len()).map(|id| (reg.size_of(id), reg.align_of(id))).collect();
    assert_eq!(
        layouts,
        vec![
            (1, 1),
            (8, 8),
            (8, 4),
            (4, 4),
            (8, 4),
            (2, 1),
            (16, 8),
            (12, 4),
            (3, 1),
            (0, 1),
            (1, 1),
            (16, 8),
            (1, 1),
        ]
    );
    assert!(matches!(reg.shape(3), Shape::Boxed { target: 0 }));
}

#[test]
fn empty_table_holds_together() {
    let reg = Registry::new(vec![]).unwrap();
    assert_eq!(reg.len(), 0);
}

#[test]
fn scalar_widths() {
    for width in [1, 2, 4, 8, 16] {
        assert!(accepted(vec![Shape::Scalar { width }]));
    }
    for width in [0, 3, 5, 6, 7, 12, 32] {
        assert!(!accepted(vec![Shape::Scalar { width }]));
    }
}

#[test]
fn parts_stand_before_the_whole() {
    // A payload has to be known before the optional around it.
    assert!(!accepted(vec![Shape::Optional { payload: 0 }]));
    assert!(!accepted(vec![Shape::Optional { payload: 1 }, Shape::Text]));
    assert!(accepted(vec![Shape::Text, Shape::Optional { payload: 0 }]));
    // So has a field, and a variant.
    assert!(!accepted(vec![record(&[(0, 1)], 8, 4), Shape::Text]));
    assert!(!accepted(vec![record(&[(0, 0)], 8, 4)]));
    assert!(!accepted(vec![Shape::Union { variants: vec![1], size: 4, align: 4 }, record(&[], 0, 1)]));
    // The target of a reference may stand anywhere in the table.
    assert!(accepted(vec![Shape::Boxed { target: 0 }]));
    assert!(accepted(vec![Shape::Boxed { target: 1 }, Shape::Text]));
    assert!(accepted(vec![Shape::Sequence { element: 0 }]));
    assert!(!accepted(vec![Shape::Boxed { target: 1 }]));
    assert!(!accepted(vec![Shape::Sequence { element: 2 }, Shape::Text]));
}

#[test]
fn record_layouts() {
    let number = || Shape::Scalar { width: 4 };
    assert!(accepted(vec![number(), record(&[(0, 0), (4, 0)], 8, 4)]));
    // Padding behind and between fields is fine.
    assert!(accepted(vec![number(), record(&[(4, 0)], 16, 8)]));
    // A field that crosses the end of the record.
    assert!(!accepted(vec![number(), record(&[(0, 0), (4, 0)], 4, 4)]));
    assert!(!accepted(vec![number(), record(&[(usize::MAX - 3, 0)], 8, 4)]));
    // A field at an offset that its alignment does not divide.
    assert!(!accepted(vec![number(), record(&[(2, 0)], 8, 4)]));
    // A record less aligned than a field.
    assert!(!accepted(vec![number(), record(&[(0, 0)], 4, 2)]));
    // A size that the alignment does not divide.
    assert!(!accepted(vec![number(), record(&[(0, 0)], 6, 4)]));
    // An alignment that is no power of two up to 16.
    assert!(!accepted(vec![record(&[], 0, 0)]));
    assert!(!accepted(vec![record(&[], 0, 3)]));
    assert!(!accepted(vec![record(&[], 0, 32)]));
    assert!(accepted(vec![record(&[], 0, 16)]));
}

#[test]
fn union_layouts() {
    let table =
        |u: Shape| vec![record(&[], 0, 1), Shape::Scalar { width: 4 }, record(&[(4, 1)], 8, 4), u];
    assert!(accepted(table(Shape::Union { variants: vec![0, 2], size: 8, align: 4 })));
    // Without variants every tag is unknown, which is a layout all the same.
    assert!(accepted(table(Shape::Union { variants: vec![], size: 1, align: 1 })));
    // No room for the tag.
    assert!(!accepted(table(Shape::Union { variants: vec![0], size: 0, align: 1 })));
    // A variant larger than the union.
    assert!(!accepted(table(Shape::Union { variants: vec![0, 2], size: 4, align: 4 })));
    // A variant more aligned than the union.
    assert!(!accepted(table(Shape::Union { variants: vec![0, 2], size: 8, align: 2 })));
    // A tag of two bytes in a union aligned to one.
    assert!(!accepted(table(Shape::Union { variants: vec![0; 257], size: 2, align: 1 })));
    assert!(accepted(table(Shape::Union { variants: vec![0; 257], size: 2, align: 2 })));
    assert!(accepted(table(Shape::Union { variants: vec![0; 256], size: 1, align: 1 })));
    // A tag of four bytes.
    assert!(!accepted(table(Shape::Union { variants: vec![0; 0x1_0001], size: 2, align: 2 })));
    assert!(accepted(table(Shape::Union { variants: vec![0; 0x1_0001], size: 4, align: 4 })));
}

#[test]
fn tag_widths() {
    assert_eq!(tag_width_of(0), 1);
    assert_eq!(tag_width_of(2), 1);
    assert_eq!(tag_width_of(256), 1);
    assert_eq!(tag_width_of(257), 2);
    assert_eq!(tag_width_of(65536), 2);
    assert_eq!(tag_width_of(65537), 4);
}
