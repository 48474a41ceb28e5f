use vmcore::debugger::{check_consistency, Audit, CowViolation, Divergence};
use vmcore::flags::PageFlags;
use vmcore::frame::{Frame, FrameError, FrameTable, RefCount};
use vmcore::grant::{Grant, Provider};
use vmcore::paging::{Page, VirtualAddress};
use vmcore::space::{AddressSpace, FrameFault, Resolution, SpaceError};
use vmcore::table::{Mapping, PageTable, TableError};

fn user_rw() -> PageFlags {
    PageFlags::new().user(true).write(true)
}

fn private(base: usize, pages: usize, flags: PageFlags) -> Grant {
    Grant::new(Page { number: base }, pages, flags, Provider::AnonymousPrivate).unwrap()
}

/// One grant over pages [10, 15), writable and private, page 10 + i on frame 20 + i.
fn scenario() -> (AddressSpace, FrameTable) {
    let mut space = AddressSpace::new();
    let mut frames = FrameTable::new(64);
    space.grants.insert(private(10, 5, user_rw())).unwrap();
    for i in 0..5 {
        let mapping = space
            .map_page(&mut frames, Page { number: 10 + i }, Frame { number: 20 + i })
            .unwrap();
        assert_eq!(mapping.flags, user_rw());
    }
    (space, frames)
}

#[test]
fn table_maps_and_unmaps() {
    let mut table = PageTable::new();
    let page = Page { number: (1 << 27) | (2 << 18) | (3 << 9) | 4 };
    let frame = Frame { number: 77 };
    assert_eq!(table.translate(page), None);
    assert_eq!(table.map(page, frame, user_rw()), Ok(None));
    assert_eq!(table.translate(page), Some(Mapping { frame, flags: user_rw() }));
    assert_eq!(table.translate(page.next()), None);
    assert_eq!(table.translate(Page { number: 4 }), None);
    let other = Frame { number: 78 };
    assert_eq!(
        table.map(page, other, PageFlags::new()),
        Ok(Some(Mapping { frame, flags: user_rw() }))
    );
    assert_eq!(table.remap(page, user_rw()), Some(PageFlags::new()));
    assert_eq!(table.remap(page.next(), user_rw()), None);
    assert_eq!(table.unmap(page), Some(Mapping { frame: other, flags: user_rw() }));
    assert_eq!(table.unmap(page), None);
    assert_eq!(table.translate(page), None);
}

#[test]
fn table_refuses_pages_beyond_four_levels() {
    let mut table = PageTable::new();
    let beyond = Page { number: 0x10_0000_0000 };
    assert_eq!(
        table.map(beyond, Frame { number: 1 }, user_rw()),
        Err(TableError::NotAddressable)
    );
    assert_eq!(table.translate(beyond), None);
    assert_eq!(table.translate(Page { number: 0 }), None);
    assert_eq!(table.unmap(beyond), None);
}

#[test]
fn translate_by_address() {
    let (space, _) = scenario();
    let found = space.translate(VirtualAddress::new(12 * 4096 + 123));
    assert_eq!(found, Some(Mapping { frame: Frame { number: 22 }, flags: user_rw() }));
    assert_eq!(space.translate(VirtualAddress::new(15 * 4096)), None);
}

#[test]
fn map_page_refusals() {
    let (mut space, mut frames) = scenario();
    assert_eq!(
        space.map_page(&mut frames, Page { number: 9 }, Frame { number: 1 }),
        Err(SpaceError::NoGrant)
    );
    assert_eq!(
        space.map_page(&mut frames, Page { number: 10 }, Frame { number: 1 }),
        Err(SpaceError::AlreadyMapped)
    );
    space.grants.insert(private(100, 1, user_rw())).unwrap();
    assert_eq!(
        space.map_page(&mut frames, Page { number: 100 }, Frame { number: 64 }),
        Err(SpaceError::Frame(FrameError::Untracked))
    );
    space
        .grants
        .insert(private(0x10_0000_0000, 1, user_rw()))
        .unwrap();
    assert_eq!(
        space.map_page(&mut frames, Page { number: 0x10_0000_0000 }, Frame { number: 1 }),
        Err(SpaceError::NotAddressable)
    );
    assert_eq!(frames.refcount(Frame { number: 1 }), RefCount::Zero);
}

#[test]
fn second_mapping_of_a_frame_is_copy_on_write() {
    let (mut space, mut frames) = scenario();
    space.grants.insert(private(100, 1, user_rw())).unwrap();
    let mapping = space
        .map_page(&mut frames, Page { number: 100 }, Frame { number: 20 })
        .unwrap();
    assert!(!mapping.flags.has_write());
    assert_eq!(frames.refcount(Frame { number: 20 }), RefCount::Cow(2));
}

#[test]
fn shared_grant_maps_shared_frames() {
    let mut space = AddressSpace::new();
    let mut frames = FrameTable::new(8);
    let grant =
        Grant::new(Page { number: 1 }, 2, user_rw(), Provider::AnonymousShared).unwrap();
    space.grants.insert(grant).unwrap();
    let first = space
        .map_page(&mut frames, Page { number: 1 }, Frame { number: 3 })
        .unwrap();
    let second = space
        .map_page(&mut frames, Page { number: 2 }, Frame { number: 3 })
        .unwrap();
    assert!(first.flags.has_write() && second.flags.has_write());
    assert_eq!(frames.refcount(Frame { number: 3 }), RefCount::Shared(2));
    let report = check_consistency(&space, &frames);
    assert!(report.divergences.is_empty());
    assert!(report.fatal.is_none());
}

#[test]
fn unmap_page_gives_the_reference_up() {
    let (mut space, mut frames) = scenario();
    let gone = space.unmap_page(&mut frames, Page { number: 11 }).unwrap();
    assert_eq!(gone.frame, Frame { number: 21 });
    assert_eq!(frames.refcount(Frame { number: 21 }), RefCount::Zero);
    assert_eq!(space.table.translate(Page { number: 11 }), None);
    assert_eq!(
        space.unmap_page(&mut frames, Page { number: 11 }),
        Err(SpaceError::NotMapped)
    );
    let report = check_consistency(&space, &frames);
    assert!(report.divergences.is_empty());
}

#[test]
fn unmap_page_keeps_a_mapping_whose_frame_has_no_reference() {
    let (mut space, mut frames) = scenario();
    frames.decrement(Frame { number: 20 }).unwrap();
    assert_eq!(
        space.unmap_page(&mut frames, Page { number: 10 }),
        Err(SpaceError::Frame(FrameError::Underflow))
    );
    assert!(space.table.translate(Page { number: 10 }).is_some());
}

#[test]
fn consistent_space_has_no_divergence() {
    let (space, frames) = scenario();
    for i in 0..5 {
        assert_eq!(frames.refcount(Frame { number: 20 + i }), RefCount::One);
    }
    let report = check_consistency(&space, &frames);
    assert_eq!(report.divergences, vec![]);
    assert_eq!(report.fatal, None);
}

#[test]
fn empty_space_has_no_divergence() {
    let report = check_consistency(&AddressSpace::new(), &FrameTable::new(0));
    assert!(report.divergences.is_empty());
    assert!(report.fatal.is_none());
}

#[test]
fn writable_mapping_of_a_cow_frame_is_fatal() {
    let (mut space, mut frames) = scenario();
    frames.increment(Frame { number: 22 }).unwrap();
    assert_eq!(frames.refcount(Frame { number: 22 }), RefCount::Cow(2));
    let report = check_consistency(&space, &frames);
    assert_eq!(
        report.fatal,
        Some(CowViolation {
            page: Page { number: 12 },
            mapping: Mapping { frame: Frame { number: 22 }, flags: user_rw() },
        })
    );
    assert_eq!(report.divergences, vec![]);
    // Made read-only, the mapping is no violation; the count is then off by one.
    space.table.remap(Page { number: 12 }, user_rw().write(false));
    let report = check_consistency(&space, &frames);
    assert_eq!(report.fatal, None);
    assert_eq!(
        report.divergences,
        vec![Divergence::RefCountMismatch {
            frame: Frame { number: 22 },
            recorded: RefCount::Cow(2),
            observed: 1,
        }]
    );
}

#[test]
fn audit_stops_at_the_first_violation() {
    let (mut space, mut frames) = scenario();
    space.grants.remove(Page { number: 10 }).unwrap();
    space.grants.insert(private(12, 3, user_rw())).unwrap();
    frames.increment(Frame { number: 22 }).unwrap();
    frames.increment(Frame { number: 24 }).unwrap();
    let report = check_consistency(&space, &frames);
    assert_eq!(report.fatal.unwrap().page, Page { number: 12 });
    assert_eq!(
        report.divergences,
        vec![
            Divergence::MissingGrant {
                page: Page { number: 10 },
                mapping: Mapping { frame: Frame { number: 20 }, flags: user_rw() },
            },
            Divergence::MissingGrant {
                page: Page { number: 11 },
                mapping: Mapping { frame: Frame { number: 21 }, flags: user_rw() },
            },
        ]
    );
}

#[test]
fn removed_grant_leaves_mappings_without_owner() {
    let (mut space, frames) = scenario();
    space.grants.remove(Page { number: 10 }).unwrap();
    let report = check_consistency(&space, &frames);
    assert_eq!(report.fatal, None);
    let expected: Vec<Divergence> = (0..5)
        .map(|i| Divergence::MissingGrant {
            page: Page { number: 10 + i },
            mapping: Mapping { frame: Frame { number: 20 + i }, flags: user_rw() },
        })
        .collect();
    assert_eq!(report.divergences, expected);
}

#[test]
fn flag_mismatch_is_reported() {
    let (mut space, frames) = scenario();
    let grant = space.grants.get(0).unwrap();
    space.table.remap(Page { number: 13 }, user_rw().user(false));
    // Accessed, dirty and writable bits do not count.
    space.table.remap(
        Page { number: 14 },
        PageFlags { data: (user_rw().data() | 0x60) & !0x2 },
    );
    let report = check_consistency(&space, &frames);
    assert_eq!(
        report.divergences,
        vec![Divergence::FlagMismatch {
            page: Page { number: 13 },
            grant,
            mapping: Mapping { frame: Frame { number: 23 }, flags: user_rw().user(false) },
        }]
    );
}

#[test]
fn write_beyond_the_grant_is_reported() {
    let mut space = AddressSpace::new();
    let mut frames = FrameTable::new(8);
    let read_only = PageFlags::new().user(true);
    let grant = private(3, 1, read_only);
    space.grants.insert(grant).unwrap();
    space
        .map_page(&mut frames, Page { number: 3 }, Frame { number: 5 })
        .unwrap();
    space.table.remap(Page { number: 3 }, read_only.write(true));
    let report = check_consistency(&space, &frames);
    assert_eq!(report.fatal, None);
    assert_eq!(
        report.divergences,
        vec![Divergence::ExcessWrite {
            page: Page { number: 3 },
            grant,
            mapping: Mapping { frame: Frame { number: 5 }, flags: read_only.write(true) },
        }]
    );
}

#[test]
fn untracked_frame_is_reported() {
    let (mut space, frames) = scenario();
    space
        .table
        .map(Page { number: 14 }, Frame { number: 1000 }, user_rw())
        .unwrap();
    // Frame 24 is recorded once and no longer met: a frame that is not met is not reported.
    let report = check_consistency(&space, &frames);
    assert_eq!(
        report.divergences,
        vec![Divergence::UntrackedFrame {
            page: Page { number: 14 },
            mapping: Mapping { frame: Frame { number: 1000 }, flags: user_rw() },
        }]
    );
}

#[test]
fn tally_mismatch_is_reported_per_frame() {
    let (mut space, frames) = scenario();
    // Pages 10 and 11 both on frame 20, recorded once; frame 21 recorded but not mapped.
    space
        .table
        .map(Page { number: 11 }, Frame { number: 20 }, user_rw())
        .unwrap();
    let report = check_consistency(&space, &frames);
    assert_eq!(
        report.divergences,
        vec![Divergence::RefCountMismatch {
            frame: Frame { number: 20 },
            recorded: RefCount::One,
            observed: 2,
        }]
    );
}

#[test]
fn kernel_half_is_not_audited() {
    let (mut space, frames) = scenario();
    let kernel_page = Page { number: 256 << 27 };
    space
        .table
        .map(kernel_page, Frame { number: 1000 }, user_rw())
        .unwrap();
    let last_user_page = Page { number: (256 << 27) - 1 };
    space
        .table
        .map(last_user_page, Frame { number: 1001 }, user_rw())
        .unwrap();
    let report = check_consistency(&space, &frames);
    assert_eq!(
        report.divergences,
        vec![
            Divergence::MissingGrant {
                page: last_user_page,
                mapping: Mapping { frame: Frame { number: 1001 }, flags: user_rw() },
            },
            Divergence::UntrackedFrame {
                page: last_user_page,
                mapping: Mapping { frame: Frame { number: 1001 }, flags: user_rw() },
            },
        ]
    );
}

#[test]
fn write_fault_on_cow_frame_copies() {
    let (mut space, mut frames) = scenario();
    let page = Page { number: 10 };
    let shared = Frame { number: 20 };
    let fresh = Frame { number: 40 };
    frames.increment(shared).unwrap();
    space.table.remap(page, user_rw().write(false));
    assert_eq!(
        space.resolve_write_fault(&mut frames, page, fresh),
        Ok(Resolution::Copied { from: shared, to: fresh })
    );
    assert_eq!(frames.refcount(shared), RefCount::One);
    assert_eq!(frames.refcount(fresh), RefCount::One);
    assert_eq!(
        space.table.translate(page),
        Some(Mapping { frame: fresh, flags: user_rw() })
    );
}

#[test]
fn write_fault_on_frame_shared_by_three_leaves_cow_of_two() {
    let (mut space, mut frames) = scenario();
    let page = Page { number: 10 };
    let shared = Frame { number: 20 };
    frames.increment(shared).unwrap();
    frames.increment(shared).unwrap();
    space.table.remap(page, user_rw().write(false));
    assert_eq!(
        space.resolve_write_fault(&mut frames, page, Frame { number: 41 }),
        Ok(Resolution::Copied { from: shared, to: Frame { number: 41 } })
    );
    assert_eq!(frames.refcount(shared), RefCount::Cow(2));
    assert_eq!(frames.refcount(Frame { number: 41 }), RefCount::One);
    assert!(space.table.translate(page).unwrap().flags.has_write());
}

#[test]
fn write_fault_on_exclusive_frame_upgrades_in_place() {
    let (mut space, mut frames) = scenario();
    let page = Page { number: 13 };
    space.table.remap(page, user_rw().write(false));
    assert_eq!(
        space.resolve_write_fault(&mut frames, page, Frame { number: 42 }),
        Ok(Resolution::Upgraded)
    );
    assert_eq!(frames.refcount(Frame { number: 23 }), RefCount::One);
    assert_eq!(frames.refcount(Frame { number: 42 }), RefCount::Zero);
    assert_eq!(
        space.table.translate(page),
        Some(Mapping { frame: Frame { number: 23 }, flags: user_rw() })
    );
}

#[test]
fn write_fault_refusals_change_nothing() {
    let (mut space, mut frames) = scenario();
    let fresh = Frame { number: 40 };
    assert_eq!(
        space.resolve_write_fault(&mut frames, Page { number: 99 }, fresh),
        Err(SpaceError::NotMapped)
    );
    space
        .table
        .map(Page { number: 99 }, Frame { number: 30 }, user_rw())
        .unwrap();
    assert_eq!(
        space.resolve_write_fault(&mut frames, Page { number: 99 }, fresh),
        Err(SpaceError::NoGrant)
    );
    space
        .grants
        .insert(private(200, 1, PageFlags::new().user(true)))
        .unwrap();
    space
        .map_page(&mut frames, Page { number: 200 }, Frame { number: 31 })
        .unwrap();
    assert_eq!(
        space.resolve_write_fault(&mut frames, Page { number: 200 }, fresh),
        Err(SpaceError::ReadOnly)
    );
    frames.increment(Frame { number: 20 }).unwrap();
    assert_eq!(
        space.resolve_write_fault(&mut frames, Page { number: 10 }, Frame { number: 21 }),
        Err(SpaceError::Frame(FrameError::InUse))
    );
    assert_eq!(
        space.resolve_write_fault(&mut frames, Page { number: 10 }, Frame { number: 64 }),
        Err(SpaceError::Frame(FrameError::Untracked))
    );
    assert_eq!(frames.refcount(Frame { number: 20 }), RefCount::Cow(2));
    assert_eq!(frames.refcount(Frame { number: 21 }), RefCount::One);
    assert_eq!(
        space.table.translate(Page { number: 10 }).unwrap().frame,
        Frame { number: 20 }
    );
}

fn audit_together(spaces: &[&AddressSpace], frames: &FrameTable) -> vmcore::debugger::Report {
    let mut audit = Audit::new(frames);
    for space in spaces {
        audit.walk(space, frames);
    }
    audit.finish(frames)
}

#[test]
fn fork_shares_private_frames_copy_on_write() {
    let (mut a, mut frames) = scenario();
    let fork = a.duplicate(&mut frames);
    assert_eq!(fork.fault, None);
    let b = fork.child;
    assert_eq!(b.grants.len(), 1);
    assert_eq!(b.grants.get(0), a.grants.get(0));
    let read_only = user_rw().write(false);
    for i in 0..5 {
        let frame = Frame { number: 20 + i };
        let page = Page { number: 10 + i };
        assert_eq!(frames.refcount(frame), RefCount::Cow(2));
        assert_eq!(a.table.translate(page), Some(Mapping { frame, flags: read_only }));
        assert_eq!(b.table.translate(page), Some(Mapping { frame, flags: read_only }));
    }
    assert_eq!(b.table.translate(Page { number: 15 }), None);
    let report = audit_together(&[&a, &b], &frames);
    assert_eq!(report.divergences, vec![]);
    assert_eq!(report.fatal, None);
}

#[test]
fn audit_of_one_space_misses_the_mappings_of_the_other() {
    let (mut a, mut frames) = scenario();
    let fork = a.duplicate(&mut frames);
    let alone = check_consistency(&fork.child, &frames);
    assert_eq!(alone.fatal, None);
    let expected: Vec<Divergence> = (0..5)
        .map(|i| Divergence::RefCountMismatch {
            frame: Frame { number: 20 + i },
            recorded: RefCount::Cow(2),
            observed: 1,
        })
        .collect();
    assert_eq!(alone.divergences, expected);
}

#[test]
fn forced_writable_mapping_after_fork_is_fatal() {
    let (mut a, mut frames) = scenario();
    let fork = a.duplicate(&mut frames);
    let b = fork.child;
    a.table.remap(Page { number: 13 }, user_rw());
    let report = audit_together(&[&b, &a], &frames);
    assert_eq!(
        report.fatal,
        Some(CowViolation {
            page: Page { number: 13 },
            mapping: Mapping { frame: Frame { number: 23 }, flags: user_rw() },
        })
    );
    assert_eq!(report.divergences, vec![]);
    let alone = check_consistency(&a, &frames);
    assert_eq!(alone.fatal.unwrap().page, Page { number: 13 });
}

#[test]
fn write_faults_after_fork_separate_the_spaces_again() {
    let (mut a, mut frames) = scenario();
    let mut b = a.duplicate(&mut frames).child;
    let page = Page { number: 11 };
    let shared = Frame { number: 21 };
    let fresh = Frame { number: 50 };
    assert_eq!(
        b.resolve_write_fault(&mut frames, page, fresh),
        Ok(Resolution::Copied { from: shared, to: fresh })
    );
    assert_eq!(frames.refcount(shared), RefCount::One);
    assert_eq!(frames.refcount(fresh), RefCount::One);
    assert_eq!(b.table.translate(page), Some(Mapping { frame: fresh, flags: user_rw() }));
    assert_eq!(
        a.table.translate(page),
        Some(Mapping { frame: shared, flags: user_rw().write(false) })
    );
    assert_eq!(
        a.resolve_write_fault(&mut frames, page, Frame { number: 51 }),
        Ok(Resolution::Upgraded)
    );
    assert_eq!(a.table.translate(page), Some(Mapping { frame: shared, flags: user_rw() }));
    assert_eq!(frames.refcount(Frame { number: 51 }), RefCount::Zero);
    let report = audit_together(&[&a, &b], &frames);
    assert_eq!(report.divergences, vec![]);
    assert_eq!(report.fatal, None);
}

#[test]
fn fork_keeps_frames_shared_on_purpose_writable() {
    let mut a = AddressSpace::new();
    let mut frames = FrameTable::new(8);
    let grant =
        Grant::new(Page { number: 4 }, 2, user_rw(), Provider::AnonymousShared).unwrap();
    a.grants.insert(grant).unwrap();
    a.map_page(&mut frames, Page { number: 4 }, Frame { number: 1 }).unwrap();
    a.map_page(&mut frames, Page { number: 5 }, Frame { number: 2 }).unwrap();
    let fork = a.duplicate(&mut frames);
    assert_eq!(fork.fault, None);
    for (page, frame) in [(4, 1), (5, 2)] {
        let mapping = Mapping { frame: Frame { number: frame }, flags: user_rw() };
        assert_eq!(frames.refcount(Frame { number: frame }), RefCount::Shared(2));
        assert_eq!(a.table.translate(Page { number: page }), Some(mapping));
        assert_eq!(fork.child.table.translate(Page { number: page }), Some(mapping));
    }
    let report = audit_together(&[&a, &fork.child], &frames);
    assert_eq!(report.divergences, vec![]);
    assert_eq!(report.fatal, None);
}

#[test]
fn fork_hands_on_nothing_outside_the_grants() {
    let (mut a, mut frames) = scenario();
    a.table
        .map(Page { number: 99 }, Frame { number: 30 }, user_rw())
        .unwrap();
    let fork = a.duplicate(&mut frames);
    assert_eq!(fork.fault, None);
    assert_eq!(fork.child.table.translate(Page { number: 99 }), None);
    assert_eq!(
        a.table.translate(Page { number: 99 }),
        Some(Mapping { frame: Frame { number: 30 }, flags: user_rw() })
    );
    assert_eq!(frames.refcount(Frame { number: 30 }), RefCount::Zero);
}

#[test]
fn fork_counts_a_frame_once_per_page() {
    let mut a = AddressSpace::new();
    let mut frames = FrameTable::new(4);
    a.grants.insert(private(0, 3, user_rw())).unwrap();
    for number in 0..3 {
        a.map_page(&mut frames, Page { number }, Frame { number: 1 }).unwrap();
    }
    assert_eq!(frames.refcount(Frame { number: 1 }), RefCount::Cow(3));
    let fork = a.duplicate(&mut frames);
    assert_eq!(fork.fault, None);
    assert_eq!(frames.refcount(Frame { number: 1 }), RefCount::Cow(6));
    let report = audit_together(&[&a, &fork.child], &frames);
    assert_eq!(report.divergences, vec![]);
}

#[test]
fn fork_stops_at_a_frame_that_is_not_tracked() {
    let (mut a, mut frames) = scenario();
    a.table
        .map(Page { number: 12 }, Frame { number: 500 }, user_rw())
        .unwrap();
    let fork = a.duplicate(&mut frames);
    assert_eq!(
        fork.fault,
        Some(FrameFault { page: Page { number: 12 }, error: FrameError::Untracked })
    );
    let read_only = user_rw().write(false);
    for i in 0..2 {
        let mapping = Mapping { frame: Frame { number: 20 + i }, flags: read_only };
        assert_eq!(frames.refcount(Frame { number: 20 + i }), RefCount::Cow(2));
        assert_eq!(a.table.translate(Page { number: 10 + i }), Some(mapping));
        assert_eq!(fork.child.table.translate(Page { number: 10 + i }), Some(mapping));
    }
    for i in 2..5 {
        assert_eq!(fork.child.table.translate(Page { number: 10 + i }), None);
    }
    assert_eq!(frames.refcount(Frame { number: 23 }), RefCount::One);
    assert_eq!(
        a.table.translate(Page { number: 13 }),
        Some(Mapping { frame: Frame { number: 23 }, flags: user_rw() })
    );
}

#[test]
fn fork_stops_where_the_counter_is_full() {
    let mut a = AddressSpace::new();
    let mut frames = FrameTable::new(4);
    a.grants.insert(private(7, 2, user_rw())).unwrap();
    a.table.map(Page { number: 7 }, Frame { number: 0 }, user_rw()).unwrap();
    a.table.map(Page { number: 8 }, Frame { number: 0 }, user_rw()).unwrap();
    frames.counts[0] = RefCount::Cow(usize::MAX - 1);
    let fork = a.duplicate(&mut frames);
    assert_eq!(
        fork.fault,
        Some(FrameFault { page: Page { number: 8 }, error: FrameError::Overflow })
    );
    assert_eq!(frames.refcount(Frame { number: 0 }), RefCount::Cow(usize::MAX));
    assert!(fork.child.table.translate(Page { number: 7 }).is_some());
    assert!(fork.child.table.translate(Page { number: 8 }).is_none());
}

#[test]
fn fork_of_an_empty_space_is_empty() {
    let mut a = AddressSpace::new();
    let mut frames = FrameTable::new(1);
    let fork = a.duplicate(&mut frames);
    assert_eq!(fork.fault, None);
    assert!(fork.child.grants.is_empty());
    assert_eq!(frames.refcount(Frame { number: 0 }), RefCount::Zero);
}

#[test]
fn audit_that_was_stopped_walks_no_further() {
    let (space, mut frames) = scenario();
    frames.increment(Frame { number: 20 }).unwrap();
    let mut audit = Audit::new(&frames);
    audit.walk(&space, &frames);
    assert_eq!(audit.fatal.unwrap().page, Page { number: 10 });
    let tally = audit.tally.clone();
    audit.walk(&space, &frames);
    assert_eq!(audit.tally, tally);
    assert_eq!(audit.tally[20], 1);
    let report = audit.finish(&frames);
    assert_eq!(report.divergences, vec![]);
}

#[test]
fn release_gives_every_reference_up() {
    let (space, mut frames) = scenario();
    assert_eq!(space.release(&mut frames), Ok(()));
    for number in 0..64 {
        assert_eq!(frames.refcount(Frame { number }), RefCount::Zero);
    }
}

#[test]
fn release_of_the_child_undoes_the_fork_in_the_frame_table() {
    let (mut a, mut frames) = scenario();
    let fork = a.duplicate(&mut frames);
    assert_eq!(fork.child.release(&mut frames), Ok(()));
    for i in 0..5 {
        assert_eq!(frames.refcount(Frame { number: 20 + i }), RefCount::One);
    }
    // The mappings of the first space stay read-only until they fault.
    assert!(!a.table.translate(Page { number: 10 }).unwrap().flags.has_write());
    let report = check_consistency(&a, &frames);
    assert_eq!(report.divergences, vec![]);
    assert_eq!(
        a.resolve_write_fault(&mut frames, Page { number: 10 }, Frame { number: 60 }),
        Ok(Resolution::Upgraded)
    );
}

#[test]
fn release_stops_at_a_frame_without_reference() {
    let (space, mut frames) = scenario();
    frames.decrement(Frame { number: 22 }).unwrap();
    assert_eq!(
        space.release(&mut frames),
        Err(FrameFault { page: Page { number: 12 }, error: FrameError::Underflow })
    );
    assert_eq!(frames.refcount(Frame { number: 20 }), RefCount::Zero);
    assert_eq!(frames.refcount(Frame { number: 21 }), RefCount::Zero);
    assert_eq!(frames.refcount(Frame { number: 23 }), RefCount::One);
    assert_eq!(frames.refcount(Frame { number: 24 }), RefCount::One);
}

#[test]
fn release_stops_at_a_frame_that_is_not_tracked() {
    let (mut space, mut frames) = scenario();
    space
        .table
        .map(Page { number: 10 }, Frame { number: 64 }, user_rw())
        .unwrap();
    assert_eq!(
        space.release(&mut frames),
        Err(FrameFault { page: Page { number: 10 }, error: FrameError::Untracked })
    );
    assert_eq!(frames.refcount(Frame { number: 21 }), RefCount::One);
}

#[test]
fn release_leaves_mappings_outside_the_grants_alone() {
    let (mut space, mut frames) = scenario();
    frames.increment(Frame { number: 40 }).unwrap();
    space
        .table
        .map(Page { number: 99 }, Frame { number: 40 }, user_rw())
        .unwrap();
    assert_eq!(space.release(&mut frames), Ok(()));
    assert_eq!(frames.refcount(Frame { number: 40 }), RefCount::One);
}

#[test]
fn structures_built_by_the_library_are_well_formed() {
    let (mut space, mut frames) = scenario();
    assert!(space.is_well_formed());
    assert!(frames.is_well_formed());
    let fork = space.duplicate(&mut frames);
    assert!(space.is_well_formed() && fork.child.is_well_formed() && frames.is_well_formed());
    assert!(Audit::new(&frames).is_ready(&frames));
}

#[test]
fn broken_structures_are_not_well_formed() {
    let (mut space, mut frames) = scenario();
    frames.counts[3] = RefCount::Cow(1);
    assert!(!frames.is_well_formed());
    frames.counts[3] = RefCount::Shared(0);
    assert!(!frames.is_well_formed());
    space.grants.grants.push(private(12, 1, user_rw()));
    assert!(!space.grants.is_well_formed());
    assert!(!space.is_well_formed());
    space.grants.grants.pop();
    assert!(space.is_well_formed());
    space.grants.grants[0].page_count = 0;
    assert!(!space.is_well_formed());
    space.grants.grants[0].page_count = 5;
    space.table.entries.pop();
    assert!(!space.is_well_formed());
}

#[test]
fn audit_with_a_foreign_tally_is_not_ready() {
    let frames = FrameTable::new(4);
    let mut audit = Audit::new(&FrameTable::new(3));
    assert!(!audit.is_ready(&frames));
    audit.tally.push(u64::MAX);
    assert!(!audit.is_ready(&frames));
    audit.tally[3] = 7;
    assert!(audit.is_ready(&frames));
}
