use ooxml::bytes::{Reader, Span, Writer};
use ooxml::error::{Error, ZipError};

#[test]
fn reads_little_endian() {
    let mut r = Reader::new(&[0x01, 0x02, 0x03, 0x04, 0x05, 0x06, 0x07, 0x08]);
    assert_eq!(r.le_u16(), Some(0x0201));
    assert_eq!(r.le_u32(), Some(0x0605_0403));
    assert_eq!(r.pos(), 6);
}

#[test]
fn truncated_read_leaves_none() {
    let mut r = Reader::new(&[0x01, 0x02]);
    assert_eq!(r.le_u32(), None);
    assert_eq!(r.remaining(), 2);
}

#[test]
fn skip_past_end_rejected_without_moving() {
    let mut r = Reader::new(&[0u8; 4]);
    assert_eq!(r.skip(5), None);
    assert_eq!(r.pos(), 0);
    assert_eq!(r.skip(4), Some(()));
    assert!(r.is_eof());
}

#[test]
fn skip_overflow_does_not_wrap() {
    let mut r = Reader::new(&[0u8; 4]);
    assert_eq!(r.skip(usize::MAX), None);
    assert_eq!(r.pos(), 0);
}

#[test]
fn failed_signature_rewinds() {
    let mut r = Reader::new(&[0x50, 0x4b, 0x03, 0x04, 0xff]);
    assert_eq!(r.expect_sig(0x0201_0403), None);
    assert_eq!(r.pos(), 0);
    assert_eq!(r.expect_sig(0x0403_4b50), Some(()));
    assert_eq!(r.pos(), 4);
}

#[test]
fn rfind_finds_last_occurrence() {
    let src = b"PK\x05\x06___PK\x05\x06xy";
    assert_eq!(Reader::rfind_in_tail(src, b"PK\x05\x06", 64), Some(7));
}

#[test]
fn rfind_respects_window() {
    let src = b"PK\x05\x06________________";
    assert_eq!(Reader::rfind_in_tail(src, b"PK\x05\x06", 4), None);
}

#[test]
fn rfind_needs_the_whole_needle_in_the_window() {
    assert_eq!(Reader::rfind_in_tail(b"xxab", b"ab", 2), Some(2));
    assert_eq!(Reader::rfind_in_tail(b"xxab", b"ab", 1), None);
    assert_eq!(Reader::rfind_in_tail(b"a", b"ab", 9), None);
}

#[test]
fn take_span_rejects_overflow_of_u32() {
    let src = [0u8; 8];
    let mut r = Reader::new(&src);
    assert_eq!(r.take_span(usize::MAX), None);
    assert_eq!(r.pos(), 0);
    let s = r.take_span(4).unwrap();
    assert_eq!(s.slice(&src), Some(&[0u8, 0, 0, 0][..]));
}

#[test]
fn cursor_operations_agree_with_the_buffer() {
    let src = [9u8, 8, 7, 6, 5, 4, 3, 2, 1];
    let mut r = Reader::at(&src, 1).unwrap();
    assert!(Reader::at(&src, 10).is_none());
    assert_eq!(r.src(), &src[..]);
    assert_eq!(r.peek(2), Some(&[8u8, 7][..]));
    assert_eq!(r.peek(9), None);
    assert_eq!(r.peek_at(7), Some(1));
    assert_eq!(r.peek_at(8), None);
    assert_eq!(r.le_u64(), Some(0x0102_0304_0506_0708));
    assert_eq!(r.u8(), None);
    assert_eq!(r.seek(8), Some(()));
    assert_eq!(r.u8(), Some(1));
    assert_eq!(r.seek(10), None);
    assert_eq!(r.pos(), 9);
    assert_eq!(r.take(1), None);
    assert_eq!(r.take(0), Some(&[][..]));
}

#[test]
fn reversed_range_rejected() {
    assert!(Span::new(5, 3).is_none());
    assert!(Span::new(3, 3).is_some());
}

#[test]
fn clamped_collapses_instead_of_panicking() {
    let s = Span::clamped(9, 4);
    assert!(s.is_empty());
    assert_eq!(s.start(), 9);
}

#[test]
fn slice_out_of_bounds_is_none() {
    let src = b"abcdef";
    assert_eq!(Span::clamped(2, 4).slice(src), Some(&b"cd"[..]));
    assert_eq!(Span::clamped(4, 99).slice(src), None);
    assert_eq!(Span::clamped(99, 99).slice(src), None);
}

#[test]
fn touching_spans_tile() {
    let a = Span::clamped(0, 4);
    let b = Span::clamped(4, 9);
    assert!(a.touches(b));
    assert!(!b.touches(a));
    assert_eq!(a.join(b), Span::clamped(0, 9));
    assert_eq!(b.len(), 5);
    assert_eq!(Span::default(), Span::empty(0));
}

#[test]
fn patch_fills_reserved_slot() {
    let mut w = Writer::new();
    w.le_u16(0xBEEF);
    let p = w.reserve_u32();
    w.bytes(b"tail");
    assert_eq!(w.offset(), 10);
    w.patch_u32(p, 0x1122_3344).unwrap();
    assert_eq!(
        w.finish(),
        vec![0xEF, 0xBE, 0x44, 0x33, 0x22, 0x11, b't', b'a', b'i', b'l']
    );
}

#[test]
fn patch_of_wrong_width_is_error_not_silent() {
    let mut w = Writer::new();
    let p = w.reserve_u64();
    assert!(w.patch_u32(p, 1).is_err());
}

#[test]
fn foreign_patch_rejected() {
    let mut a = Writer::new();
    let mut b = Writer::new();
    a.bytes(&[0u8; 32]);
    let p = a.reserve_u32();
    assert!(b.patch_u32(p, 7).is_err());
    assert_eq!(
        b.patch_u32(p, 7),
        Err(Error::Zip { kind: ZipError::OffsetOverflow, offset: 32 })
    );
}

#[test]
fn written_numbers_are_read_back() {
    let mut w = Writer::with_capacity(16);
    assert!(w.is_empty());
    w.u8(7);
    w.le_u16(0x1234);
    w.le_u32(0xDEAD_BEEF);
    w.le_u64(0x0123_4567_89AB_CDEF);
    let p = w.reserve_u64();
    w.patch_u64(p, 0xFEDC_BA98_7654_3210).unwrap();
    assert_eq!(w.len(), 23);
    let bytes = w.finish();
    let mut r = Reader::new(&bytes);
    assert_eq!(r.u8(), Some(7));
    assert_eq!(r.le_u16(), Some(0x1234));
    assert_eq!(r.le_u32(), Some(0xDEAD_BEEF));
    assert_eq!(r.le_u64(), Some(0x0123_4567_89AB_CDEF));
    assert_eq!(r.le_u64(), Some(0xFEDC_BA98_7654_3210));
    assert!(r.is_eof());
}
