use vmcore::frame::Frame;
use vmcore::paging::{
    round_down_pages, round_up_pages, Page, PageIter, PhysicalAddress, VirtualAddress,
    ENTRY_COUNT, PAGE_SIZE,
};

#[test]
fn containing_address_rounds_down() {
    let page = Page::containing_address(VirtualAddress::new(0x1234_5678));
    assert_eq!(page.number, 0x12345);
    assert_eq!(page.start_address().data(), 0x1234_5000);
    let first = Page::containing_address(VirtualAddress::new(4095));
    assert_eq!(first.number, 0);
    let second = Page::containing_address(VirtualAddress::new(4096));
    assert_eq!(second.number, 1);
}

#[test]
fn address_lies_within_its_page() {
    for address in [0usize, 1, 4095, 4096, 4097, 0xdead_beef, 0x7fff_ffff_f123] {
        let start = Page::containing_address(VirtualAddress::new(address))
            .start_address()
            .data();
        assert!(start <= address);
        assert!(address < start + PAGE_SIZE);
        assert_eq!(start % PAGE_SIZE, 0);
    }
}

#[test]
fn last_address_has_a_page() {
    let page = Page::containing_address(VirtualAddress::new(usize::MAX));
    assert_eq!(page.number, usize::MAX / PAGE_SIZE);
    assert_eq!(page.start_address().data(), usize::MAX - 4095);
}

#[test]
fn rounding_exact_values() {
    assert_eq!(round_down_pages(0), 0);
    assert_eq!(round_down_pages(1), 0);
    assert_eq!(round_down_pages(4095), 0);
    assert_eq!(round_down_pages(4096), 4096);
    assert_eq!(round_down_pages(8191), 4096);
    assert_eq!(round_up_pages(0), 0);
    assert_eq!(round_up_pages(1), 4096);
    assert_eq!(round_up_pages(4096), 4096);
    assert_eq!(round_up_pages(4097), 8192);
}

#[test]
fn rounding_brackets_the_number() {
    for n in [0usize, 1, 4095, 4096, 4097, 123_456_789, 0xffff_0000_0001] {
        let down = round_down_pages(n);
        let up = round_up_pages(n);
        assert!(down <= n && n <= up);
        assert_eq!(down % PAGE_SIZE, 0);
        assert_eq!(up % PAGE_SIZE, 0);
        assert!(up - down <= PAGE_SIZE);
        assert_eq!(round_down_pages(down), down);
    }
}

#[test]
fn round_up_at_the_limit() {
    let n = usize::MAX - (PAGE_SIZE - 1);
    assert_eq!(round_up_pages(n), n);
}

#[test]
fn index_decomposition() {
    let page = Page { number: (3 << 27) | (5 << 18) | (7 << 9) | 11 };
    assert_eq!(page.p4_index(), 3);
    assert_eq!(page.p3_index(), 5);
    assert_eq!(page.p2_index(), 7);
    assert_eq!(page.p1_index(), 11);
    assert!(page.is_addressable());
}

#[test]
fn index_decomposition_round_trips() {
    for number in [0usize, 1, 511, 512, 0x1234_5678, 0xf_ffff_ffff] {
        let page = Page { number };
        assert!(page.p4_index() < ENTRY_COUNT);
        let again = (page.p4_index() << 27)
            | (page.p3_index() << 18)
            | (page.p2_index() << 9)
            | page.p1_index();
        assert_eq!(again, number);
    }
}

#[test]
fn pages_beyond_four_levels_are_not_addressable() {
    assert!(Page { number: 0xf_ffff_ffff }.is_addressable());
    assert!(!Page { number: 0x10_0000_0000 }.is_addressable());
    assert_eq!(Page { number: 0x10_0000_0000 }.p4_index(), 0);
}

#[test]
fn stepping_pages() {
    let page = Page { number: 10 };
    assert_eq!(page.next().number, 11);
    assert_eq!(page.next_by(0).number, 10);
    assert_eq!(page.next_by(5).number, 15);
    assert_eq!(page.next_by(5).offset_from(page), 5);
    assert_eq!(page.offset_from(page), 0);
}

#[test]
fn pages_are_ordered_by_number() {
    assert!(Page { number: 3 } < Page { number: 4 });
    assert_eq!(Page { number: 3 }, Page { number: 3 });
}

#[test]
fn exclusive_range_yields_each_page_once() {
    let start = Page { number: 100 };
    let mut range = Page::range_exclusive(start, start.next_by(4));
    assert_eq!(range.len(), 4);
    assert_eq!(range.next(), Some(Page { number: 100 }));
    assert_eq!(range.next(), Some(Page { number: 101 }));
    assert_eq!(range.next(), Some(Page { number: 102 }));
    assert_eq!(range.next(), Some(Page { number: 103 }));
    assert_eq!(range.next(), None);
    assert_eq!(range.next(), None);
    assert_eq!(range.len(), 0);
}

#[test]
fn inclusive_range_holds_its_last_page() {
    let range = Page::range_inclusive(Page { number: 7 }, Page { number: 9 });
    let pages = range.collect();
    assert_eq!(
        pages,
        vec![Page { number: 7 }, Page { number: 8 }, Page { number: 9 }]
    );
}

#[test]
fn empty_and_reversed_ranges_yield_nothing() {
    let page = Page { number: 5 };
    assert_eq!(Page::range_exclusive(page, page).collect(), vec![]);
    let mut reversed = Page::range_exclusive(Page { number: 9 }, Page { number: 5 });
    assert_eq!(reversed.next(), None);
    assert_eq!(reversed.len(), 0);
}

#[test]
fn range_can_be_walked_again_from_a_copy() {
    let range: PageIter = Page::range_exclusive(Page { number: 1 }, Page { number: 4 });
    let first = range.collect();
    let second = range.collect();
    assert_eq!(first, second);
    assert_eq!(first.len(), 3);
}

#[test]
fn frames_follow_the_same_arithmetic() {
    let frame = Frame::containing_address(PhysicalAddress::new(0x5432_1fff));
    assert_eq!(frame.number, 0x54321);
    assert_eq!(frame.start_address().data(), 0x5432_1000);
    assert_eq!(frame.next().number, 0x54322);
    assert_eq!(frame.next_by(3).offset_from(frame), 3);
    assert!(Frame { number: 1 } < Frame { number: 2 });
}
