use rayon_hash::heap::{allocation, capacity, Element, Request};
use rayon_hash::memory::{CollectionAllocErr, Layout, LayoutErr};
use rayon_hash::nonzero::NonZero;

#[test]
fn layout_takes_a_power_of_two_alignment_only() {
    assert!(Layout::from_size_align(8, 0).is_err());
    assert!(Layout::from_size_align(8, 3).is_err());
    assert!(Layout::from_size_align(8, 24).is_err());
    let layout = Layout::from_size_align(9, 4).unwrap();
    assert_eq!((layout.size(), layout.align()), (9, 4));
    assert!(Layout::from_size_align(0, 1).is_ok());
}

#[test]
fn layout_size_must_round_up_within_isize() {
    let most = isize::MAX as usize;
    assert!(Layout::from_size_align(most, 1).is_ok());
    assert!(Layout::from_size_align(most + 1, 1).is_err());
    assert!(Layout::from_size_align(most - 3, 4).is_ok());
    assert!(Layout::from_size_align(most - 2, 4).is_err());
}

#[test]
fn padding_rounds_up_to_the_alignment() {
    let layout = Layout::from_size_align(9, 1).unwrap();
    assert_eq!(layout.padding_needed_for(4), 3);
    assert_eq!(layout.padding_needed_for(1), 0);
    assert_eq!(layout.padding_needed_for(16), 7);
    let exact = Layout::from_size_align(16, 8).unwrap();
    assert_eq!(exact.padding_needed_for(8), 0);
}

#[test]
fn repeat_pads_each_block() {
    let layout = Layout::from_size_align(6, 4).unwrap();
    let (array, stride) = layout.repeat(5).unwrap();
    assert_eq!(stride, 8);
    assert_eq!((array.size(), array.align()), (40, 4));
    assert_eq!(layout.repeat(usize::MAX).err(), Some(LayoutErr {}));
}

#[test]
fn extend_aligns_the_second_block() {
    let first = Layout::from_size_align(5, 1).unwrap();
    let second = Layout::from_size_align(8, 8).unwrap();
    let (both, offset) = first.extend(second).unwrap();
    assert_eq!(offset, 8);
    assert_eq!((both.size(), both.align()), (16, 8));
    let huge = Layout::from_size_align_unchecked(usize::MAX - 1, 1);
    assert!(huge.extend(second).is_err());
}

#[test]
fn array_of_values() {
    let layout = Layout::array::<u32>(5).unwrap();
    assert_eq!((layout.size(), layout.align()), (20, 4));
    assert_eq!(Layout::new::<u64>().size(), 8);
    assert!(Layout::array::<u64>(usize::MAX / 4).is_err());
}

#[test]
fn no_layout_means_capacity_overflow() {
    assert_eq!(CollectionAllocErr::from(LayoutErr {}), CollectionAllocErr::CapacityOverflow);
    assert_ne!(CollectionAllocErr::AllocErr, CollectionAllocErr::CapacityOverflow);
}

#[test]
fn capacity_rounds_up() {
    assert_eq!(capacity(0, 4), 0);
    assert_eq!(capacity(1, 4), 1);
    assert_eq!(capacity(8, 4), 2);
    assert_eq!(capacity(10, 4), 3);
}

#[test]
fn allocation_picks_the_element_by_alignment() {
    assert_eq!(
        allocation::<u8, u64>(16, 8),
        Ok(Request { element: Element::Second, capacity: 2 })
    );
    assert_eq!(
        allocation::<u8, u64>(16, 1),
        Ok(Request { element: Element::First, capacity: 16 })
    );
    assert_eq!(
        allocation::<u32, u32>(9, 4),
        Ok(Request { element: Element::First, capacity: 3 })
    );
}

#[test]
fn nonzero_hands_back_what_it_wraps() {
    let n = NonZero::new_unchecked(17usize);
    assert_eq!(n.get(), 17);
}
