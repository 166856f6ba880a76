use archive_check::claims::ArchiveContext;
use archive_check::error::ValidationError;
use archive_check::extent::check_extent;
use archive_check::span::Span;
use archive_check::wire::{read_offset, read_u16, read_u32, read_u64, read_u8, resolve};

#[test]
fn span_overlap_is_sharing_a_byte() {
    let a = Span::new(0, 8);
    assert!(a.overlaps(&Span::new(7, 9)));
    assert!(a.overlaps(&Span::new(0, 1)));
    assert!(a.overlaps(&Span::new(2, 3)));
    assert!(a.overlaps(&a));
    assert!(!a.overlaps(&Span::new(8, 16)));
    assert!(Span::new(8, 16).overlaps(&Span::new(0, 9)));
    // A span without bytes overlaps nothing, not even where it stands.
    assert!(!a.overlaps(&Span::new(4, 4)));
    assert!(!Span::new(4, 4).overlaps(&a));
    assert!(!Span::new(4, 4).overlaps(&Span::new(4, 4)));
    assert!(!a.overlaps(&Span::new(6, 2)));
}

#[test]
fn span_length() {
    assert_eq!(Span::new(3, 10).len(), 7);
    assert_eq!(Span::new(3, 3).len(), 0);
    assert_eq!(Span::new(10, 3).len(), 0);
    assert!(Span::new(3, 3).is_empty());
    assert!(Span::new(10, 3).is_empty());
    assert!(!Span::new(3, 4).is_empty());
    assert_eq!(Span::new(3, 4), Span { start: 3, end: 4 });
}

#[test]
fn fresh_context_is_empty() {
    let buf = [0u8; 16];
    let ctx = ArchiveContext::new(&buf);
    assert_eq!(ctx.depth(), 0);
    assert_eq!(ctx.bytes(), &buf);
    assert!(!ctx.overlaps_committed(Span::new(0, 16)));
    assert!(!ctx.overlaps_ancestor(Span::new(0, 16)));
}

#[test]
fn enter_and_exit_keep_a_stack() {
    let buf = [0u8; 32];
    let mut ctx = ArchiveContext::new(&buf);
    let outer = ctx.enter(Span::new(0, 8)).unwrap();
    assert_eq!(outer.claimed(), Span::new(0, 8));
    assert_eq!(ctx.depth(), 1);
    let inner = ctx.enter(Span::new(8, 16)).unwrap();
    assert_eq!(ctx.depth(), 2);
    assert!(ctx.is_innermost(&inner));
    assert!(!ctx.is_innermost(&outer));
    ctx.exit(inner);
    assert_eq!(ctx.depth(), 1);
    assert!(ctx.is_innermost(&outer));
    assert!(ctx.overlaps_committed(Span::new(15, 20)));
    assert!(!ctx.overlaps_committed(Span::new(0, 8)));
    assert!(ctx.overlaps_ancestor(Span::new(0, 8)));
    ctx.exit(outer);
    assert_eq!(ctx.depth(), 0);
    assert!(ctx.overlaps_committed(Span::new(0, 1)));
    assert!(!ctx.overlaps_ancestor(Span::new(0, 8)));
}

#[test]
fn enter_tells_cycle_from_overlap() {
    let buf = [0u8; 32];
    let mut ctx = ArchiveContext::new(&buf);
    let outer = ctx.enter(Span::new(0, 8)).unwrap();
    // Into a range that is open.
    assert_eq!(ctx.enter(Span::new(4, 12)).unwrap_err(), ValidationError::CyclicClaim);
    assert_eq!(ctx.depth(), 1);
    let sibling = ctx.enter(Span::new(8, 16)).unwrap();
    ctx.exit(sibling);
    // Into a range that is done.
    assert_eq!(ctx.enter(Span::new(12, 20)).unwrap_err(), ValidationError::OverlappingClaim);
    // Into both: what is done is looked at first.
    assert_eq!(ctx.enter(Span::new(4, 12)).unwrap_err(), ValidationError::OverlappingClaim);
    // Disjoint from both.
    let third = ctx.enter(Span::new(16, 32)).unwrap();
    ctx.exit(third);
    ctx.exit(outer);
    assert_eq!(ctx.depth(), 0);
}

#[test]
fn enter_refuses_ranges_that_leave_the_archive() {
    let buf = [0u8; 16];
    let mut ctx = ArchiveContext::new(&buf);
    assert_eq!(ctx.enter(Span::new(8, 17)).unwrap_err(), ValidationError::OutOfBounds);
    assert_eq!(ctx.enter(Span::new(16, 17)).unwrap_err(), ValidationError::OutOfBounds);
    assert_eq!(ctx.depth(), 0);
    let whole = ctx.enter(Span::new(0, 16)).unwrap();
    // A range without bytes is never refused.
    let nothing = ctx.enter(Span::new(20, 20)).unwrap();
    let inside = ctx.enter(Span::new(4, 4)).unwrap();
    ctx.exit(inside);
    ctx.exit(nothing);
    ctx.exit(whole);
}

#[test]
fn resolve_adds_the_offset_to_the_field_position() {
    assert_eq!(resolve(4, 8, 23), Ok(12));
    assert_eq!(resolve(12, -12, 16), Ok(0));
    assert_eq!(resolve(0, 0, 0), Ok(0));
    // The end of the archive is a position.
    assert_eq!(resolve(4, 12, 16), Ok(16));
    assert_eq!(resolve(4, 13, 16), Err(ValidationError::OutOfBounds));
    assert_eq!(resolve(4, -5, 16), Err(ValidationError::OutOfBounds));
    assert_eq!(resolve(4, -4, 16), Ok(0));
    assert_eq!(resolve(0, i32::MIN, 16), Err(ValidationError::OutOfBounds));
    assert_eq!(resolve(0, i32::MAX, 16), Err(ValidationError::OutOfBounds));
    assert_eq!(resolve(usize::MAX, 1, usize::MAX), Err(ValidationError::OutOfBounds));
    assert_eq!(resolve(usize::MAX, -1, usize::MAX), Ok(usize::MAX - 1));
    assert_eq!(resolve(0x8000_0000, i32::MIN, 16), Ok(0));
    // A field behind the end may still point back inside.
    assert_eq!(resolve(20, -10, 16), Ok(10));
    assert_eq!(resolve(20, -3, 16), Err(ValidationError::OutOfBounds));
}

#[test]
fn integers_are_little_endian() {
    let buf = [0x01u8, 0x02, 0x03, 0x04, 0x05, 0x06, 0x07, 0x08, 0xf4, 0xff, 0xff, 0xff];
    assert_eq!(read_u8(&buf, 1), 0x02);
    assert_eq!(read_u16(&buf, 0), 0x0201);
    assert_eq!(read_u16(&buf, 10), 0xffff);
    assert_eq!(read_u32(&buf, 0), 0x0403_0201);
    assert_eq!(read_u32(&buf, 8), 0xffff_fff4);
    assert_eq!(read_u64(&buf, 0), 0x0807_0605_0403_0201);
    assert_eq!(read_u64(&buf, 4), 0xffff_fff4_0807_0605);
    assert_eq!(read_offset(&buf, 8), -12);
    assert_eq!(read_offset(&buf, 0), 0x0403_0201);
    assert_eq!(read_offset(&[0, 0, 0, 0x80], 0), i32::MIN);
    assert_eq!(read_offset(&[0xff, 0xff, 0xff, 0x7f], 0), i32::MAX);
    assert_eq!(read_offset(&[0xff, 0xff, 0xff, 0xff], 0), -1);
}

#[test]
fn extent_faults_in_order() {
    // Behind the end, or at the end with something to read.
    assert_eq!(check_extent(5, 6, 0, 1), Err(ValidationError::OutOfBounds));
    assert_eq!(check_extent(5, 5, 4, 4), Err(ValidationError::OutOfBounds));
    assert_eq!(check_extent(5, 5, 1, 1), Err(ValidationError::OutOfBounds));
    // Starts inside, ends outside; alignment is not looked at.
    assert_eq!(check_extent(5, 2, 4, 4), Err(ValidationError::Overrun));
    assert_eq!(check_extent(5, 4, 4, 4), Err(ValidationError::Overrun));
    assert_eq!(check_extent(5, 0, usize::MAX, 1), Err(ValidationError::Overrun));
    // Inside, at a position that the alignment does not divide.
    assert_eq!(check_extent(5, 1, 4, 4), Err(ValidationError::Misaligned));
    assert_eq!(check_extent(16, 4, 8, 8), Err(ValidationError::Misaligned));
    // Nothing to read: every position up to the end will do.
    assert_eq!(check_extent(5, 5, 0, 1), Ok(()));
    assert_eq!(check_extent(0, 0, 0, 1), Ok(()));
    assert_eq!(check_extent(5, 3, 0, 2), Err(ValidationError::Misaligned));
    assert_eq!(check_extent(5, 0, 5, 1), Ok(()));
    assert_eq!(check_extent(16, 8, 8, 8), Ok(()));
}

#[test]
fn nested_errors_unwrap_to_their_cause() {
    let e = ValidationError::nested(ValidationError::nested(ValidationError::Overrun));
    assert_eq!(
        e,
        ValidationError::Nested(Box::new(ValidationError::Nested(Box::new(
            ValidationError::Overrun
        ))))
    );
    assert_eq!(e.into_root_cause(), ValidationError::Overrun);
    assert_eq!(ValidationError::Misaligned.into_root_cause(), ValidationError::Misaligned);
}

#[test]
fn committed_ranges_are_found_in_any_order_of_commit() {
    // Ranges [10 * k, 10 * k + 6) for k in 0..50, committed in a scrambled
    // order, with ranges without bytes thrown in.
    let buf = [0u8; 512];
    let mut ctx = ArchiveContext::new(&buf);
    let mut naive: Vec<Span> = Vec::new();
    for step in 0..50usize {
        let k = (step * 37) % 50;
        let span = Span::new(10 * k, 10 * k + 6);
        let guard = ctx.enter(span).unwrap();
        ctx.exit(guard);
        naive.push(span);
        let nothing = Span::new(10 * k + 3, 10 * k + 3);
        let guard = ctx.enter(nothing).unwrap();
        ctx.exit(guard);
    }
    for start in 0..505usize {
        for len in 0..8usize {
            let probe = Span::new(start, start + len);
            let expected = naive.iter().any(|s| s.overlaps(&probe));
            assert_eq!(ctx.overlaps_committed(probe), expected, "probe {:?}", probe);
        }
    }
    // Whatever fits between two committed ranges is granted and then found.
    for k in 0..50usize {
        let gap = Span::new(10 * k + 6, 10 * k + 10);
        assert!(!ctx.overlaps_committed(gap));
        let guard = ctx.enter(gap).unwrap();
        assert!(ctx.overlaps_ancestor(gap));
        ctx.exit(guard);
        assert!(ctx.overlaps_committed(gap));
        assert_eq!(ctx.enter(gap).unwrap_err(), ValidationError::OverlappingClaim);
    }
    assert!(ctx.overlaps_committed(Span::new(0, 500)));
    assert!(!ctx.overlaps_committed(Span::new(500, 512)));
    assert_eq!(ctx.depth(), 0);
}
