use talc::bins::{bin_of_size, BIN_COUNT};
use talc::heap::{ErrOnOom, Layout, Talc};
use talc::span::Span;
use talc::tag::Tag;
use talc::utils::{align_down, align_up, align_up_overflows, ALIGN, MIN_CHUNK_SIZE};

#[test]
fn align_ptr_test() {
    assert!(!align_up_overflows(0));
    assert!(!align_up_overflows(0usize.wrapping_sub(ALIGN)));
    assert!(align_up_overflows(0usize.wrapping_sub(ALIGN - 1)));
    assert!(align_up_overflows(0usize.wrapping_sub(ALIGN - 2)));
    assert!(align_up_overflows(0usize.wrapping_sub(ALIGN - 3)));

    assert!(align_up(0) == 0);
    assert!(align_down(0) == 0);

    assert!(align_up(1) == ALIGN);
    assert!(align_up(2) == ALIGN);
    assert!(align_up(3) == ALIGN);
    assert!(align_up(ALIGN) == ALIGN);

    assert!(align_down(1) == 0);
    assert!(align_down(2) == 0);
    assert!(align_down(3) == 0);
    assert!(align_down(ALIGN) == ALIGN);
}

#[test]
fn span_operations() {
    let s = Span::new(100, 200);
    assert!(!s.is_empty());
    assert_eq!(s.size(), 100);
    assert!(s.contains(100));
    assert!(s.contains(199));
    assert!(!s.contains(200));
    assert!(!s.contains(99));

    let e = Span::empty();
    assert!(e.is_empty());
    assert_eq!(e.size(), 0);
    assert!(s.contains_span(e));
    assert!(e.contains_span(e));
    assert!(!e.contains_span(s));
    assert!(s.contains_span(Span::new(150, 180)));
    assert!(!s.contains_span(Span::new(150, 201)));

    let a = Span::new(13, 97).word_align_inward();
    assert_eq!(a, Span::new(16, 96));
    assert_eq!(Span::new(16, 96).word_align_inward(), Span::new(16, 96));

    assert_eq!(s.extend(10, 20), Span::new(90, 220));
    assert_eq!(s.extend(1000, 0), Span::new(0, 200));
    assert_eq!(s.truncate(10, 20), Span::new(110, 180));
    assert_eq!(s.fit_within(Span::new(150, 500)), Span::new(150, 200));
    assert_eq!(s.fit_over(Span::new(50, 150)), Span::new(50, 200));
    assert_eq!(s.get_base_acme(), Some((100, 200)));
    assert_eq!(e.get_base_acme(), None);
}

#[test]
fn tag_encoding() {
    let t = Tag::new(0x1000, false);
    assert!(t.is_allocated());
    assert!(!t.is_below_free());
    assert_eq!(t.acme(), 0x1000);

    let t2 = Tag::new(0x1000, true);
    assert!(t2.is_allocated());
    assert!(t2.is_below_free());
    assert_eq!(t2.acme(), 0x1000);

    let t3 = t2.with_acme(0x2008);
    assert_eq!(t3.acme(), 0x2008);
    assert!(t3.is_below_free());

    let t4 = t3.with_below_free_cleared();
    assert!(!t4.is_below_free());
    assert_eq!(t4.acme(), 0x2008);
    let t5 = t4.with_below_free_set();
    assert!(t5.is_below_free());
    assert_eq!(t5.acme(), 0x2008);
}

#[test]
fn bin_mapping() {
    // one bin per word-sized step from the minimum chunk size
    assert_eq!(bin_of_size(24), 0);
    assert_eq!(bin_of_size(32), 1);
    assert_eq!(bin_of_size(528), 63);
    // one bin per doubling from there on
    assert_eq!(bin_of_size(536), 64);
    assert_eq!(bin_of_size(1016), 64);
    assert_eq!(bin_of_size(1024), 65);
    assert_eq!(bin_of_size(2048), 66);
    assert_eq!(bin_of_size(1 << 20), 75);
    // monotone spot checks
    let mut prev = 0;
    let mut size = MIN_CHUNK_SIZE;
    while size < (1 << 30) {
        let b = bin_of_size(size);
        assert!(b >= prev);
        assert!(b < BIN_COUNT);
        prev = b;
        size *= 2;
    }
}

#[test]
fn required_chunk_size_rounding() {
    assert_eq!(Talc::<ErrOnOom>::required_chunk_size(1), MIN_CHUNK_SIZE);
    assert_eq!(Talc::<ErrOnOom>::required_chunk_size(16), MIN_CHUNK_SIZE);
    assert_eq!(Talc::<ErrOnOom>::required_chunk_size(17), 32);
    assert_eq!(Talc::<ErrOnOom>::required_chunk_size(24), 32);
    assert_eq!(Talc::<ErrOnOom>::required_chunk_size(25), 40);
    assert_eq!(Talc::<ErrOnOom>::required_chunk_size(1243), 1256);
}

#[test]
fn layout_construction() {
    assert!(Layout::from_size_align(16, 8).is_some());
    assert!(Layout::from_size_align(16, 1).is_some());
    assert!(Layout::from_size_align(16, 4096).is_some());
    assert!(Layout::from_size_align(16, 0).is_none());
    assert!(Layout::from_size_align(16, 3).is_none());
    assert!(Layout::from_size_align(16, 24).is_none());
    let l = Layout::from_size_align(64, 16).unwrap();
    assert_eq!(l.size(), 64);
    assert_eq!(l.align(), 16);
}

#[test]
fn availability_bits_and_next_bin() {
    let mut t: Talc<ErrOnOom> = Talc::new();
    assert_eq!(t.next_bin(0), None);
    t.set_avails(5);
    t.set_avails(70);
    assert_eq!(t.next_bin(0), Some(5));
    assert_eq!(t.next_bin(5), Some(5));
    assert_eq!(t.next_bin(6), Some(70));
    assert_eq!(t.next_bin(70), Some(70));
    assert_eq!(t.next_bin(71), None);
    t.clear_avails(5);
    assert_eq!(t.next_bin(0), Some(70));
    t.clear_avails(70);
    assert_eq!(t.next_bin(0), None);
}
