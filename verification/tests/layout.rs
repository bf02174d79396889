use std::alloc::Layout as Expected;
use std::mem;

use alt_join::erased::{Entry, JoinHeader};
use alt_join::layout::{
    checked_align_of, entries_offset, join_impl_layout, max, record_layout, Layout, LayoutError,
};
use alt_join::raw;

type Unit = std::future::Ready<u8>;

#[test]
fn entries_begin_behind_the_header() {
    let header = Expected::new::<JoinHeader>();
    for n in 0..5 {
        let (expected, offset) = header
            .extend(Expected::array::<Entry<Unit>>(n).unwrap())
            .unwrap();
        assert_eq!(entries_offset::<Unit>(), offset);
        let layout = join_impl_layout::<Unit>(n);
        assert_eq!(layout.size, expected.size());
        assert_eq!(layout.align, expected.align());
    }
}

#[test]
fn padding_is_as_small_as_possible() {
    let (layout, offset) = record_layout::<u8, u32>(2).unwrap();
    assert_eq!(offset, 4);
    assert_eq!(layout, Layout { size: 12, align: 4 });
    let (layout, offset) = record_layout::<u32, u8>(3).unwrap();
    assert_eq!(offset, 4);
    assert_eq!(layout, Layout { size: 7, align: 4 });
    let (layout, offset) = record_layout::<[u8; 5], u16>(0).unwrap();
    assert_eq!(offset, 6);
    assert_eq!(layout, Layout { size: 6, align: 2 });
}

#[test]
fn layouts_that_are_too_large_are_refused() {
    assert_eq!(record_layout::<u64, u64>(usize::MAX), Err(LayoutError));
    assert_eq!(record_layout::<u64, u64>(isize::MAX as usize / 8), Err(LayoutError));
    assert!(record_layout::<u64, u64>(isize::MAX as usize / 8 - 1).is_ok());
    assert_eq!(record_layout::<u8, u8>(isize::MAX as usize), Err(LayoutError));
    assert!(record_layout::<u8, u8>(isize::MAX as usize - 1).is_ok());
    assert!(raw::RawSharedHandle::<u8>::layout_and_entries_offset(usize::MAX).is_err());
}

#[test]
fn the_smaller_list_has_the_layout_of_its_parts() {
    let header = Expected::new::<raw::Header<u16>>();
    let entries = Expected::array::<raw::Entry<u16>>(7).unwrap();
    let (expected, expected_offset) = header.extend(entries).unwrap();
    let (layout, offset) = raw::RawSharedHandle::<u16>::layout_and_entries_offset(7).unwrap();
    assert_eq!(offset, expected_offset);
    assert_eq!(layout.size, expected.size());
    assert_eq!(layout.align, expected.align());
}

#[test]
fn alignments_and_maxima() {
    assert_eq!(checked_align_of::<u64>(), mem::align_of::<u64>());
    assert_eq!(checked_align_of::<[u8; 64]>(), 1);
    assert_eq!(max(3, 4), 4);
    assert_eq!(max(4, 3), 4);
    assert_eq!(max(4, 4), 4);
}
