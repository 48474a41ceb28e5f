use vmcore::flags::PageFlags;
use vmcore::grant::{Grant, GrantError, GrantMap, Provider};
use vmcore::paging::Page;

fn grant(base: usize, pages: usize) -> Grant {
    Grant::new(
        Page { number: base },
        pages,
        PageFlags::new().user(true).write(true),
        Provider::AnonymousPrivate,
    )
    .unwrap()
}

#[test]
fn grant_needs_a_page_and_a_range_that_fits() {
    let flags = PageFlags::new();
    assert!(Grant::new(Page { number: 1 }, 0, flags, Provider::DeviceMapped).is_none());
    assert!(Grant::new(Page { number: usize::MAX }, 1, flags, Provider::FileMapped).is_none());
    let last = Grant::new(Page { number: usize::MAX - 1 }, 1, flags, Provider::FileMapped);
    assert!(last.is_some());
    assert_eq!(last.unwrap().end().number, usize::MAX);
}

#[test]
fn grant_getters() {
    let g = grant(10, 5);
    assert_eq!(g.base(), Page { number: 10 });
    assert_eq!(g.page_count(), 5);
    assert_eq!(g.flags(), PageFlags::new().user(true).write(true));
    assert_eq!(g.provider(), Provider::AnonymousPrivate);
    assert_eq!(g.end(), Page { number: 15 });
    assert!(!g.contains(Page { number: 9 }));
    assert!(g.contains(Page { number: 10 }));
    assert!(g.contains(Page { number: 14 }));
    assert!(!g.contains(Page { number: 15 }));
}

#[test]
fn lookup_inside_and_outside_one_grant() {
    let mut map = GrantMap::new();
    assert!(map.is_empty());
    let g = grant(10, 5);
    assert_eq!(map.insert(g), Ok(()));
    assert_eq!(map.len(), 1);
    for number in 10..15 {
        assert_eq!(
            map.contains(Page { number }),
            Some((Page { number: 10 }, g))
        );
    }
    for number in [0usize, 9, 15, 16, 1000] {
        assert_eq!(map.contains(Page { number }), None);
    }
}

#[test]
fn overlapping_grant_is_refused() {
    let mut map = GrantMap::new();
    assert_eq!(map.insert(grant(10, 5)), Ok(()));
    for (base, pages) in [(10, 5), (14, 1), (14, 10), (5, 6), (0, 100), (12, 1)] {
        assert_eq!(map.insert(grant(base, pages)), Err(GrantError::Overlap));
    }
    assert_eq!(map.len(), 1);
    assert_eq!(map.get(0), Some(grant(10, 5)));
}

#[test]
fn adjacent_grants_are_accepted() {
    let mut map = GrantMap::new();
    assert_eq!(map.insert(grant(10, 5)), Ok(()));
    assert_eq!(map.insert(grant(15, 5)), Ok(()));
    assert_eq!(map.insert(grant(5, 5)), Ok(()));
    assert_eq!(map.len(), 3);
    assert_eq!(map.contains(Page { number: 9 }).unwrap().1, grant(5, 5));
    assert_eq!(map.contains(Page { number: 10 }).unwrap().1, grant(10, 5));
    assert_eq!(map.contains(Page { number: 15 }).unwrap().1, grant(15, 5));
    assert_eq!(map.contains(Page { number: 20 }), None);
    assert_eq!(map.contains(Page { number: 4 }), None);
}

#[test]
fn grants_are_kept_in_order_of_base() {
    let mut map = GrantMap::new();
    for base in [50usize, 10, 30, 70, 20] {
        assert_eq!(map.insert(grant(base, 3)), Ok(()));
    }
    let bases: Vec<usize> = (0..map.len())
        .map(|i| map.get(i).unwrap().base().number)
        .collect();
    assert_eq!(bases, vec![10, 20, 30, 50, 70]);
    assert_eq!(map.get(5), None);
}

#[test]
fn remove_by_base() {
    let mut map = GrantMap::new();
    map.insert(grant(10, 5)).unwrap();
    map.insert(grant(20, 5)).unwrap();
    assert_eq!(map.remove(Page { number: 11 }), None);
    assert_eq!(map.remove(Page { number: 15 }), None);
    assert_eq!(map.len(), 2);
    assert_eq!(map.remove(Page { number: 10 }), Some(grant(10, 5)));
    assert_eq!(map.len(), 1);
    assert_eq!(map.contains(Page { number: 12 }), None);
    assert_eq!(map.contains(Page { number: 22 }).unwrap().1, grant(20, 5));
    assert_eq!(map.insert(grant(8, 8)), Ok(()));
}

#[test]
fn lookup_in_many_grants() {
    let mut map = GrantMap::new();
    for i in 0..100usize {
        map.insert(grant(i * 10, 4)).unwrap();
    }
    for i in 0..100usize {
        assert_eq!(
            map.contains(Page { number: i * 10 + 3 }).unwrap().0,
            Page { number: i * 10 }
        );
        assert_eq!(map.contains(Page { number: i * 10 + 4 }), None);
    }
}

#[test]
fn shrink_gives_up_the_last_pages() {
    let mut map = GrantMap::new();
    map.insert(grant(10, 5)).unwrap();
    map.insert(grant(15, 5)).unwrap();
    assert_eq!(map.shrink(Page { number: 10 }, 3), Ok(grant(10, 5)));
    assert_eq!(map.get(0), Some(grant(10, 3)));
    assert_eq!(map.contains(Page { number: 12 }).unwrap().1, grant(10, 3));
    assert_eq!(map.contains(Page { number: 13 }), None);
    assert_eq!(map.contains(Page { number: 14 }), None);
    assert_eq!(map.contains(Page { number: 15 }).unwrap().1, grant(15, 5));
    assert_eq!(map.insert(grant(13, 2)), Ok(()));
    assert_eq!(map.len(), 3);
}

#[test]
fn shrink_refusals_change_nothing() {
    let mut map = GrantMap::new();
    map.insert(grant(10, 5)).unwrap();
    assert_eq!(map.shrink(Page { number: 11 }, 1), Err(GrantError::NotFound));
    assert_eq!(map.shrink(Page { number: 10 }, 0), Err(GrantError::BadLength));
    assert_eq!(map.shrink(Page { number: 10 }, 6), Err(GrantError::BadLength));
    assert_eq!(map.shrink(Page { number: 10 }, 5), Ok(grant(10, 5)));
    assert_eq!(map.get(0), Some(grant(10, 5)));
    assert_eq!(map.len(), 1);
}

#[test]
fn split_cuts_a_grant_in_two() {
    let mut map = GrantMap::new();
    map.insert(grant(0, 2)).unwrap();
    map.insert(grant(10, 5)).unwrap();
    map.insert(grant(20, 2)).unwrap();
    assert_eq!(
        map.split(Page { number: 12 }),
        Some((grant(10, 2), grant(12, 3)))
    );
    assert_eq!(map.len(), 4);
    assert_eq!(map.get(1), Some(grant(10, 2)));
    assert_eq!(map.get(2), Some(grant(12, 3)));
    assert_eq!(map.get(3), Some(grant(20, 2)));
    assert_eq!(map.contains(Page { number: 11 }).unwrap().0, Page { number: 10 });
    assert_eq!(map.contains(Page { number: 12 }).unwrap().0, Page { number: 12 });
    assert_eq!(map.contains(Page { number: 14 }).unwrap().0, Page { number: 12 });
    assert_eq!(map.contains(Page { number: 15 }), None);
    // The upper part can now be taken out by its base: a partial unmap.
    assert_eq!(map.remove(Page { number: 12 }), Some(grant(12, 3)));
    assert_eq!(map.contains(Page { number: 13 }), None);
    assert_eq!(map.contains(Page { number: 11 }).unwrap().1, grant(10, 2));
}

#[test]
fn split_needs_a_page_inside_a_grant() {
    let mut map = GrantMap::new();
    assert_eq!(map.split(Page { number: 3 }), None);
    map.insert(grant(10, 5)).unwrap();
    assert_eq!(map.split(Page { number: 10 }), None);
    assert_eq!(map.split(Page { number: 15 }), None);
    assert_eq!(map.split(Page { number: 9 }), None);
    assert_eq!(map.len(), 1);
    assert_eq!(map.split(Page { number: 14 }), Some((grant(10, 4), grant(14, 1))));
}
