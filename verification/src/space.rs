//! An address space: one page table and one region map, and the operations
//! that keep them in step with the frame table.

use vstd::prelude::*;
use crate::flags::PageFlags;
use crate::frame::{Frame, FrameError, FrameTable, RefCount};
use crate::grant::{Grant, GrantMap, Provider};
use crate::paging::{Page, VirtualAddress};
use crate::table::{Mapping, PageTable};

verus! {

/// Why an operation on an address space was refused.
#[derive(Clone, Copy, Debug, PartialEq, Eq, Structural)]
pub enum SpaceError {
    /// The page is not mapped.
    NotMapped,
    /// No grant covers the page.
    NoGrant,
    /// The grant that covers the page does not permit writing.
    ReadOnly,
    /// The page is mapped already.
    AlreadyMapped,
    /// The page lies beyond what the page table can address.
    NotAddressable,
    /// The frame table refused.
    Frame(FrameError),
}

/// How a write fault was resolved.
#[derive(Clone, Copy, Debug, PartialEq, Eq, Structural)]
pub enum Resolution {
    /// The page is now mapped to `to`, which is to take the content of `from`.
    Copied { from: Frame, to: Frame },
    /// The frame was not shared copy-on-write: the mapping was made writable in place.
    Upgraded,
}

/// The unit of isolation: the page table that the processor walks, and the
/// grants that say what the software meant to map.
#[derive(Debug)]
pub struct AddressSpace {
    pub table: PageTable,
    pub grants: GrantMap,
}

/// The page at which a walk over the mappings of an address space stopped,
/// and why the frame table refused to count its frame.
#[derive(Clone, Copy, Debug, PartialEq, Eq, Structural)]
pub struct FrameFault {
    pub page: Page,
    pub error: FrameError,
}

/// What a duplication gives: the new address space, and the fault that
/// stopped it short, if one did.
#[derive(Debug)]
pub struct Fork {
    pub child: AddressSpace,
    pub fault: Option<FrameFault>,
}

/// What a duplication hands on of the page with that number: what the page is
/// mapped to, if a grant covers it.
pub open spec fn inherited(space: AddressSpace, n: nat) -> Option<Mapping> {
    if n <= usize::MAX && space.grants.spec_contains(Page { number: n as usize }) is Some {
        space.table.spec_translate(Page { number: n as usize })
    } else {
        None
    }
}

/// How many pages with a number below `n` a duplication hands on that are
/// mapped to the frame.
pub open spec fn inherited_below(space: AddressSpace, frame: Frame, n: nat) -> nat
    decreases n,
{
    if n == 0 {
        0
    } else {
        inherited_below(space, frame, (n - 1) as nat) + if inherited(space, (n - 1) as nat) matches Some(
            mapping,
        ) && mapping.frame == frame {
            1nat
        } else {
            0nat
        }
    }
}

/// Why a duplication cannot hand on the page with that number, if it cannot:
/// its frame is not tracked, or the pages before it have used up the counter.
pub open spec fn fork_fault_at(space: AddressSpace, counts: FrameTable, n: nat) -> Option<
    FrameError,
> {
    match inherited(space, n) {
        None => None,
        Some(mapping) => if !counts.tracks(mapping.frame) {
            Some(FrameError::Untracked)
        } else if counts.spec_refcount(mapping.frame).spec_count() + inherited_below(
            space,
            mapping.frame,
            n,
        ) >= usize::MAX {
            Some(FrameError::Overflow)
        } else {
            None
        },
    }
}

/// The mapping that both address spaces have of a page that was handed on:
/// to the same frame, and without the writable bit unless the frame is shared
/// on purpose.
pub open spec fn fork_mapping(counts: FrameTable, mapping: Mapping) -> Mapping {
    Mapping {
        frame: mapping.frame,
        flags: if counts.spec_refcount(mapping.frame) is Shared {
            mapping.flags
        } else {
            mapping.flags.spec_write(false)
        },
    }
}

/// A page that was handed on is mapped to the frame it was mapped to, with
/// flags that are equal in policy to those it had; unless the frame is shared
/// on purpose, neither address space can write through the mapping. A frame
/// that one page referred to is shared copy-on-write by two once the page
/// has been handed on.
pub proof fn lemma_fork_mapping(counts: FrameTable, mapping: Mapping)
    ensures
        fork_mapping(counts, mapping).frame == mapping.frame,
        fork_mapping(counts, mapping).flags.policy_eq(mapping.flags),
        !(counts.spec_refcount(mapping.frame) is Shared) ==> !fork_mapping(
            counts,
            mapping,
        ).flags.spec_has_write(),
        RefCount::One.spec_add(1) == RefCount::Cow(2),
{
    PageFlags::lemma_write(mapping.flags, false);
}

/// What the duplicated address space maps a page to, once the pages below
/// `stop` have been handed on.
pub open spec fn parent_after_fork(
    space: AddressSpace,
    counts: FrameTable,
    stop: nat,
    page: Page,
) -> Option<Mapping> {
    if page.number < stop && inherited(space, page.number as nat) is Some {
        Some(fork_mapping(counts, inherited(space, page.number as nat)->Some_0))
    } else {
        space.table.spec_translate(page)
    }
}

/// What the new address space maps a page to, once the pages below `stop`
/// have been handed on.
pub open spec fn child_after_fork(
    space: AddressSpace,
    counts: FrameTable,
    stop: nat,
    page: Page,
) -> Option<Mapping> {
    if page.number < stop && inherited(space, page.number as nat) is Some {
        Some(fork_mapping(counts, inherited(space, page.number as nat)->Some_0))
    } else {
        None
    }
}

/// The number of the page at which a duplication stopped: beyond every page
/// where there was no fault.
pub open spec fn fork_stop(fault: Option<FrameFault>) -> nat {
    match fault {
        None => (usize::MAX + 1) as nat,
        Some(fault) => fault.page.number as nat,
    }
}

/// Whether the two page tables and the counts are what a duplication leaves
/// behind that has handed on the pages below `stop`.
pub open spec fn forked(
    space: AddressSpace,
    counts: FrameTable,
    parent: PageTable,
    child: PageTable,
    after: Seq<RefCount>,
    stop: nat,
) -> bool {
    &&& forall|page: Page| #[trigger]
        parent.spec_translate(page) == parent_after_fork(space, counts, stop, page)
    &&& forall|page: Page| #[trigger]
        child.spec_translate(page) == child_after_fork(space, counts, stop, page)
    &&& after.len() == counts@.len()
    &&& forall|f: int|
        0 <= f < after.len() ==> {
            &&& #[trigger] after[f] == counts@[f].spec_add(
                inherited_below(space, Frame { number: f as usize }, stop),
            )
            &&& counts@[f].spec_count() + inherited_below(
                space,
                Frame { number: f as usize },
                stop,
            ) <= usize::MAX
        }
}

/// Across a stretch of pages of which a duplication hands on none, nothing changes.
pub proof fn lemma_nothing_inherited(
    space: AddressSpace,
    counts: FrameTable,
    parent: PageTable,
    child: PageTable,
    after: Seq<RefCount>,
    a: nat,
    b: nat,
)
    requires
        a <= b,
        forked(space, counts, parent, child, after, a),
        forall|n: nat| a <= n < b ==> (#[trigger] inherited(space, n)) is None,
    ensures
        forked(space, counts, parent, child, after, b),
        forall|frame: Frame| #[trigger]
            inherited_below(space, frame, b) == inherited_below(space, frame, a),
        forall|n: nat| a <= n < b ==> (#[trigger] fork_fault_at(space, counts, n)) is None,
    decreases b - a,
{
    if a < b {
        lemma_nothing_inherited(space, counts, parent, child, after, a, (b - 1) as nat);
        assert(inherited(space, (b - 1) as nat) is None);
        assert forall|frame: Frame| #[trigger]
            inherited_below(space, frame, b) == inherited_below(space, frame, a) by {
            assert(inherited_below(space, frame, (b - 1) as nat) == inherited_below(
                space,
                frame,
                a,
            ));
        }
        assert forall|page: Page| #[trigger]
            parent.spec_translate(page) == parent_after_fork(space, counts, b, page) by {
            assert(parent.spec_translate(page) == parent_after_fork(space, counts, a, page));
            if a <= page.number < b {
                assert(inherited(space, page.number as nat) is None);
            }
        }
        assert forall|page: Page| #[trigger]
            child.spec_translate(page) == child_after_fork(space, counts, b, page) by {
            assert(child.spec_translate(page) == child_after_fork(space, counts, a, page));
            if a <= page.number < b {
                assert(inherited(space, page.number as nat) is None);
            }
        }
        assert forall|f: int| 0 <= f < after.len() implies {
            &&& #[trigger] after[f] == counts@[f].spec_add(
                inherited_below(space, Frame { number: f as usize }, b),
            )
            &&& counts@[f].spec_count() + inherited_below(space, Frame { number: f as usize }, b)
                <= usize::MAX
        } by {
            assert(inherited_below(space, Frame { number: f as usize }, b) == inherited_below(
                space,
                Frame { number: f as usize },
                a,
            ));
        }
    }
}

/// Why a release cannot give up the page with that number, if it cannot: its
/// frame is not tracked, or the pages before it have used up its count.
pub open spec fn release_fault_at(space: AddressSpace, counts: FrameTable, n: nat) -> Option<
    FrameError,
> {
    match inherited(space, n) {
        None => None,
        Some(mapping) => if !counts.tracks(mapping.frame) {
            Some(FrameError::Untracked)
        } else if counts.spec_refcount(mapping.frame).spec_count() <= inherited_below(
            space,
            mapping.frame,
            n,
        ) {
            Some(FrameError::Underflow)
        } else {
            None
        },
    }
}

/// The number of the page at which a release stopped: beyond every page
/// where there was no fault.
pub open spec fn release_stop(result: Result<(), FrameFault>) -> nat {
    match result {
        Ok(()) => (usize::MAX + 1) as nat,
        Err(fault) => fault.page.number as nat,
    }
}

/// Whether the counts are what a release leaves behind that has given up the
/// mapped pages below `stop` that a grant covers.
pub open spec fn released(
    space: AddressSpace,
    counts: FrameTable,
    after: Seq<RefCount>,
    stop: nat,
) -> bool {
    &&& after.len() == counts@.len()
    &&& forall|f: int|
        0 <= f < after.len() ==> {
            &&& #[trigger] after[f] == counts@[f].spec_sub(
                inherited_below(space, Frame { number: f as usize }, stop),
            )
            &&& inherited_below(space, Frame { number: f as usize }, stop)
                <= counts@[f].spec_count()
        }
}

/// Across a stretch of pages of which none is mapped under a grant, a release
/// changes nothing.
pub proof fn lemma_nothing_released(
    space: AddressSpace,
    counts: FrameTable,
    after: Seq<RefCount>,
    a: nat,
    b: nat,
)
    requires
        a <= b,
        released(space, counts, after, a),
        forall|n: nat| a <= n < b ==> (#[trigger] inherited(space, n)) is None,
    ensures
        released(space, counts, after, b),
        forall|n: nat| a <= n < b ==> (#[trigger] release_fault_at(space, counts, n)) is None,
    decreases b - a,
{
    if a < b {
        lemma_nothing_released(space, counts, after, a, (b - 1) as nat);
        assert(inherited(space, (b - 1) as nat) is None);
        assert forall|f: int| 0 <= f < after.len() implies {
            &&& #[trigger] after[f] == counts@[f].spec_sub(
                inherited_below(space, Frame { number: f as usize }, b),
            )
            &&& inherited_below(space, Frame { number: f as usize }, b) <= counts@[f].spec_count()
        } by {
            assert(after[f] == counts@[f].spec_sub(
                inherited_below(space, Frame { number: f as usize }, (b - 1) as nat),
            ));
        }
    }
}

/// Where a release has given up the pages below a page, and that page is
/// given up as well, it has given up the pages below the next.
proof fn lemma_given_up(
    space: AddressSpace,
    counts: FrameTable,
    after: Seq<RefCount>,
    after_next: Seq<RefCount>,
    page: Page,
    mapping: Mapping,
)
    requires
        counts.wf(),
        counts@.len() <= usize::MAX,
        released(space, counts, after, page.number as nat),
        inherited(space, page.number as nat) == Some(mapping),
        counts.tracks(mapping.frame),
        inherited_below(space, mapping.frame, page.number as nat)
            < counts@[mapping.frame.number as int].spec_count(),
        after_next == after.update(
            mapping.frame.number as int,
            counts@[mapping.frame.number as int].spec_sub(
                inherited_below(space, mapping.frame, page.number as nat) + 1,
            ),
        ),
    ensures
        released(space, counts, after_next, (page.number + 1) as nat),
{
    let n = page.number as nat;
    assert forall|f: int| 0 <= f < after_next.len() implies {
        &&& #[trigger] after_next[f] == counts@[f].spec_sub(
            inherited_below(space, Frame { number: f as usize }, n + 1),
        )
        &&& inherited_below(space, Frame { number: f as usize }, n + 1)
            <= counts@[f].spec_count()
    } by {
        let frame = Frame { number: f as usize };
        assert(after[f] == counts@[f].spec_sub(inherited_below(space, frame, n)));
        assert((frame == mapping.frame) <==> (f == mapping.frame.number));
    }
}

/// No grant covers a page that lies at or after the end of every grant
/// before an index and before the base of every grant from that index on.
pub proof fn lemma_between_grants(s: Seq<Grant>, index: int, page: Page)
    requires
        0 <= index <= s.len(),
        forall|i: int| 0 <= i < index ==> (#[trigger] s[i]).spec_end() <= page.number,
        forall|i: int| index <= i < s.len() ==> page.number < (#[trigger] s[i]).base.number,
    ensures
        crate::grant::covering(s, page) is None,
{
    assert forall|i: int| 0 <= i < s.len() implies !(#[trigger] s[i]).covers(page) by {
        if i < index {
            assert(s[i].spec_end() <= page.number);
        } else {
            assert(page.number < s[i].base.number);
        }
    }
}

/// Where a duplication has handed on the pages below a page, and that page is
/// handed on as well, it has handed on the pages below the next.
proof fn lemma_handed_on(
    space: AddressSpace,
    counts: FrameTable,
    parent: PageTable,
    child: PageTable,
    after: Seq<RefCount>,
    parent_next: PageTable,
    child_next: PageTable,
    after_next: Seq<RefCount>,
    page: Page,
    mapping: Mapping,
)
    requires
        counts.wf(),
        counts@.len() <= usize::MAX,
        forked(space, counts, parent, child, after, page.number as nat),
        inherited(space, page.number as nat) == Some(mapping),
        counts.tracks(mapping.frame),
        counts@[mapping.frame.number as int].spec_count() + inherited_below(
            space,
            mapping.frame,
            page.number as nat,
        ) < usize::MAX,
        forall|q: Page| #[trigger]
            parent_next.spec_translate(q) == if q == page {
                Some(fork_mapping(counts, mapping))
            } else {
                parent.spec_translate(q)
            },
        forall|q: Page| #[trigger]
            child_next.spec_translate(q) == if q == page {
                Some(fork_mapping(counts, mapping))
            } else {
                child.spec_translate(q)
            },
        after_next == after.update(
            mapping.frame.number as int,
            counts@[mapping.frame.number as int].spec_add(
                inherited_below(space, mapping.frame, page.number as nat) + 1,
            ),
        ),
    ensures
        forked(space, counts, parent_next, child_next, after_next, (page.number + 1) as nat),
{
    let n = page.number as nat;
    assert forall|q: Page| #[trigger]
        parent_next.spec_translate(q) == parent_after_fork(space, counts, n + 1, q) by {
        assert(parent.spec_translate(q) == parent_after_fork(space, counts, n, q));
    }
    assert forall|q: Page| #[trigger]
        child_next.spec_translate(q) == child_after_fork(space, counts, n + 1, q) by {
        assert(child.spec_translate(q) == child_after_fork(space, counts, n, q));
    }
    assert forall|f: int| 0 <= f < after_next.len() implies {
        &&& #[trigger] after_next[f] == counts@[f].spec_add(
            inherited_below(space, Frame { number: f as usize }, n + 1),
        )
        &&& counts@[f].spec_count() + inherited_below(space, Frame { number: f as usize }, n + 1)
            <= usize::MAX
    } by {
        let frame = Frame { number: f as usize };
        assert(after[f] == counts@[f].spec_add(inherited_below(space, frame, n)));
        assert((frame == mapping.frame) <==> (f == mapping.frame.number));
    }
}

/// Hands a mapped page of some grant on to the new address space: the frame
/// gets one more reference, and both page tables then map the page to it,
/// without the writable bit unless the frame is shared on purpose.
fn hand_on(
    parent: &mut PageTable,
    child: &mut PageTable,
    frames: &mut FrameTable,
    page: Page,
    mapping: Mapping,
    Ghost(space): Ghost<AddressSpace>,
    Ghost(counts): Ghost<FrameTable>,
) -> (r: Option<FrameFault>)
    requires
        old(parent).wf(),
        old(child).wf(),
        old(frames).wf(),
        counts.wf(),
        counts@.len() <= usize::MAX,
        space.grants.spec_contains(page) is Some,
        space.table.spec_translate(page) == Some(mapping),
        forked(space, counts, *old(parent), *old(child), old(frames)@, page.number as nat),
    ensures
        final(parent).wf(),
        final(child).wf(),
        final(frames).wf(),
        match r {
            None => {
                &&& fork_fault_at(space, counts, page.number as nat) is None
                &&& forked(
                    space,
                    counts,
                    *final(parent),
                    *final(child),
                    final(frames)@,
                    (page.number + 1) as nat,
                )
            },
            Some(fault) => {
                &&& fault.page == page
                &&& fork_fault_at(space, counts, page.number as nat) == Some(fault.error)
                &&& forked(
                    space,
                    counts,
                    *final(parent),
                    *final(child),
                    final(frames)@,
                    page.number as nat,
                )
            },
        },
{
    let ghost n = page.number as nat;
    let ghost before = inherited_below(space, mapping.frame, n);
    proof {
        assert(inherited(space, n) == Some(mapping));
        if counts.tracks(mapping.frame) {
            assert(frames@[mapping.frame.number as int] == counts@[mapping.frame.number as int].spec_add(
                before,
            ));
            RefCount::lemma_add_then_increment(counts@[mapping.frame.number as int], before);
        }
    }
    match frames.increment(mapping.frame) {
        Err(error) => Some(FrameFault { page, error }),
        Ok(next) => {
            let flags = if next.is_shared() {
                mapping.flags
            } else {
                mapping.flags.write(false)
            };
            let _ = parent.map(page, mapping.frame, flags);
            let _ = child.map(page, mapping.frame, flags);
            proof {
                assert(Mapping { frame: mapping.frame, flags } == fork_mapping(counts, mapping));
                lemma_handed_on(
                    space,
                    counts,
                    *old(parent),
                    *old(child),
                    old(frames)@,
                    *parent,
                    *child,
                    frames@,
                    page,
                    mapping,
                );
            }
            None
        },
    }
}

/// Gives up the reference of a mapped page of some grant to its frame.
fn give_up(
    frames: &mut FrameTable,
    page: Page,
    mapping: Mapping,
    Ghost(space): Ghost<AddressSpace>,
    Ghost(counts): Ghost<FrameTable>,
) -> (r: Option<FrameFault>)
    requires
        old(frames).wf(),
        counts.wf(),
        counts@.len() <= usize::MAX,
        space.grants.spec_contains(page) is Some,
        space.table.spec_translate(page) == Some(mapping),
        released(space, counts, old(frames)@, page.number as nat),
    ensures
        final(frames).wf(),
        match r {
            None => {
                &&& release_fault_at(space, counts, page.number as nat) is None
                &&& released(space, counts, final(frames)@, (page.number + 1) as nat)
            },
            Some(fault) => {
                &&& fault.page == page
                &&& release_fault_at(space, counts, page.number as nat) == Some(fault.error)
                &&& released(space, counts, final(frames)@, page.number as nat)
            },
        },
{
    let ghost n = page.number as nat;
    let ghost before = frames@;
    proof {
        assert(inherited(space, n) == Some(mapping));
        if counts.tracks(mapping.frame) {
            assert(frames@[mapping.frame.number as int] == counts@[mapping.frame.number as int].spec_sub(
                inherited_below(space, mapping.frame, n),
            ));
            RefCount::lemma_sub_then_decrement(
                counts@[mapping.frame.number as int],
                inherited_below(space, mapping.frame, n),
            );
        }
    }
    match frames.decrement(mapping.frame) {
        Err(error) => Some(FrameFault { page, error }),
        Ok(_) => {
            proof {
                lemma_given_up(space, counts, before, frames@, page, mapping);
            }
            None
        },
    }
}

impl AddressSpace {
    /// The page table and the region map are well-formed.
    pub open spec fn wf(&self) -> bool {
        self.table.wf() && self.grants.wf()
    }

    /// The count that a frame has after one more mapping under the grant.
    pub open spec fn spec_add_ref(grant: Grant, count: RefCount) -> Result<RefCount, FrameError> {
        if grant.provider == Provider::AnonymousShared {
            count.spec_increment_shared()
        } else {
            count.spec_increment()
        }
    }

    /// The flags with which a page of the grant is mapped to a frame of that
    /// count: those of the grant, without the writable bit where the frame is
    /// shared copy-on-write.
    pub open spec fn spec_mapping_flags(grant: Grant, count: RefCount) -> PageFlags {
        if count is Cow {
            grant.flags.spec_write(false)
        } else {
            grant.flags
        }
    }

    /// What mapping a page of some grant to a frame returns.
    pub open spec fn spec_map_page(&self, frames: FrameTable, page: Page, frame: Frame) -> Result<
        Mapping,
        SpaceError,
    > {
        match self.grants.spec_contains(page) {
            None => Err(SpaceError::NoGrant),
            Some(grant) => if !page.addressable() {
                Err(SpaceError::NotAddressable)
            } else if self.table.spec_translate(page) is Some {
                Err(SpaceError::AlreadyMapped)
            } else {
                match frames.outcome(
                    frame,
                    AddressSpace::spec_add_ref(grant, frames.spec_refcount(frame)),
                ) {
                    Err(e) => Err(SpaceError::Frame(e)),
                    Ok(count) => Ok(
                        Mapping { frame, flags: AddressSpace::spec_mapping_flags(grant, count) },
                    ),
                }
            },
        }
    }

    /// What taking the mapping of a page out returns.
    pub open spec fn spec_unmap_page(&self, frames: FrameTable, page: Page) -> Result<
        Mapping,
        SpaceError,
    > {
        match self.table.spec_translate(page) {
            None => Err(SpaceError::NotMapped),
            Some(mapping) => match frames.outcome(
                mapping.frame,
                frames.spec_refcount(mapping.frame).spec_decrement(),
            ) {
                Err(e) => Err(SpaceError::Frame(e)),
                Ok(_) => Ok(mapping),
            },
        }
    }

    /// What resolving a write fault at a page returns, where `fresh` is the
    /// frame that would take a copy.
    pub open spec fn spec_write_fault(&self, frames: FrameTable, page: Page, fresh: Frame) -> Result<
        Resolution,
        SpaceError,
    > {
        match self.table.spec_translate(page) {
            None => Err(SpaceError::NotMapped),
            Some(mapping) => match self.grants.spec_contains(page) {
                None => Err(SpaceError::NoGrant),
                Some(grant) => if !grant.flags.spec_has_write() {
                    Err(SpaceError::ReadOnly)
                } else if frames.spec_refcount(mapping.frame) is Cow {
                    match frames.spec_resolve_cow(mapping.frame, fresh) {
                        Ok(_) => Ok(Resolution::Copied { from: mapping.frame, to: fresh }),
                        Err(e) => Err(SpaceError::Frame(e)),
                    }
                } else {
                    Ok(Resolution::Upgraded)
                },
            },
        }
    }

    /// Whether the page table and the region map are well-formed.
    pub fn is_well_formed(&self) -> (r: bool)
        ensures
            r == self.wf(),
    {
        self.table.is_well_formed() && self.grants.is_well_formed()
    }

    /// An address space without grants and without mappings.
    pub fn new() -> (r: AddressSpace)
        ensures
            r.wf(),
            r.grants@ == Seq::<Grant>::empty(),
            r.table@ == Map::<Page, Mapping>::empty(),
            forall|page: Page| (#[trigger] r.table.spec_translate(page)) is None,
    {
        AddressSpace { table: PageTable::new(), grants: GrantMap::new() }
    }

    /// What the page that holds the address is mapped to, if it is mapped.
    pub fn translate(&self, address: VirtualAddress) -> (r: Option<Mapping>)
        requires
            self.wf(),
        ensures
            r == self.table.spec_translate(Page::spec_containing_address(address)),
    {
        self.table.translate(Page::containing_address(address))
    }

    /// Maps a page that some grant covers, and that is not mapped yet, to the
    /// frame, and records the new reference in the frame table. The mapping has
    /// the flags of the grant, without the writable bit where the frame is
    /// then shared copy-on-write.
    pub fn map_page(&mut self, frames: &mut FrameTable, page: Page, frame: Frame) -> (r: Result<
        Mapping,
        SpaceError,
    >)
        requires
            old(self).wf(),
            old(frames).wf(),
        ensures
            final(self).wf(),
            final(frames).wf(),
            final(self).grants@ == old(self).grants@,
            r == old(self).spec_map_page(*old(frames), page, frame),
            match r {
                Ok(mapping) => {
                    &&& old(self).grants.spec_contains(page) matches Some(grant)
                    &&& final(frames)@ == old(frames).updated(
                        frame,
                        AddressSpace::spec_add_ref(grant, old(frames).spec_refcount(frame)),
                    )
                    &&& final(self).table@ == old(self).table@.insert(page, mapping)
                    &&& forall|q: Page| #[trigger]
                        final(self).table.spec_translate(q) == if q == page {
                            Some(mapping)
                        } else {
                            old(self).table.spec_translate(q)
                        }
                    &&& mapping.frame == frame
                    &&& mapping.flags.policy_eq(grant.flags)
                    &&& final(frames).spec_refcount(frame) is Cow ==> !mapping.flags.spec_has_write()
                },
                Err(_) => *final(self) == *old(self) && final(frames)@ == old(frames)@,
            },
    {
        let grant = match self.grants.contains(page) {
            Some((_, grant)) => grant,
            None => {
                return Err(SpaceError::NoGrant);
            },
        };
        proof {
            PageFlags::lemma_write(grant.flags, false);
        }
        if !page.is_addressable() {
            return Err(SpaceError::NotAddressable);
        }
        if self.table.translate(page).is_some() {
            return Err(SpaceError::AlreadyMapped);
        }
        let step = match grant.provider {
            Provider::AnonymousShared => frames.increment_shared(frame),
            _ => frames.increment(frame),
        };
        match step {
            Err(e) => Err(SpaceError::Frame(e)),
            Ok(count) => {
                let flags = if count.is_cow() {
                    grant.flags.write(false)
                } else {
                    grant.flags
                };
                let _ = self.table.map(page, frame, flags);
                Ok(Mapping { frame, flags })
            },
        }
    }

    /// Takes the mapping of a page out and gives up its reference to the
    /// frame. Where the frame has no reference to give up, nothing changes.
    pub fn unmap_page(&mut self, frames: &mut FrameTable, page: Page) -> (r: Result<
        Mapping,
        SpaceError,
    >)
        requires
            old(self).wf(),
            old(frames).wf(),
        ensures
            final(self).wf(),
            final(frames).wf(),
            final(self).grants@ == old(self).grants@,
            r == old(self).spec_unmap_page(*old(frames), page),
            match r {
                Ok(mapping) => {
                    &&& final(frames)@ == old(frames).updated(
                        mapping.frame,
                        old(frames).spec_refcount(mapping.frame).spec_decrement(),
                    )
                    &&& final(self).table@ == old(self).table@.remove(page)
                    &&& forall|q: Page| #[trigger]
                        final(self).table.spec_translate(q) == if q == page {
                            None
                        } else {
                            old(self).table.spec_translate(q)
                        }
                },
                Err(_) => *final(self) == *old(self) && final(frames)@ == old(frames)@,
            },
    {
        let mapping = match self.table.translate(page) {
            Some(mapping) => mapping,
            None => {
                return Err(SpaceError::NotMapped);
            },
        };
        match frames.decrement(mapping.frame) {
            Err(e) => Err(SpaceError::Frame(e)),
            Ok(_) => {
                let _ = self.table.unmap(page);
                Ok(mapping)
            },
        }
    }

    /// Resolves a write fault at a page whose grant permits writing. Where
    /// the frame is shared copy-on-write, the page is mapped to `fresh`
    /// instead, writable; `fresh` is then referred to once and the shared
    /// frame once less, and it is for the caller to copy the content. Where
    /// the frame is not shared copy-on-write, the mapping is made writable in
    /// place and `fresh` is left alone.
    pub fn resolve_write_fault(&mut self, frames: &mut FrameTable, page: Page, fresh: Frame) -> (r:
        Result<Resolution, SpaceError>)
        requires
            old(self).wf(),
            old(frames).wf(),
        ensures
            final(self).wf(),
            final(frames).wf(),
            final(self).grants@ == old(self).grants@,
            r == old(self).spec_write_fault(*old(frames), page, fresh),
            match r {
                Ok(Resolution::Copied { from, to }) => {
                    &&& old(self).table.spec_translate(page) matches Some(mapping)
                    &&& from == mapping.frame
                    &&& to == fresh
                    &&& old(frames).spec_refcount(from) matches RefCount::Cow(n)
                    &&& final(frames).spec_refcount(from) == if n > 2 {
                        RefCount::Cow((n - 1) as usize)
                    } else {
                        RefCount::One
                    }
                    &&& final(frames).spec_refcount(fresh) == RefCount::One
                    &&& final(frames)@ == old(frames)@.update(
                        from.number as int,
                        final(frames).spec_refcount(from),
                    ).update(fresh.number as int, RefCount::One)
                    &&& final(self).table@ == old(self).table@.insert(
                        page,
                        Mapping { frame: fresh, flags: mapping.flags.spec_write(true) },
                    )
                    &&& final(self).table.spec_translate(page) matches Some(after)
                    &&& after.frame == fresh
                    &&& after.flags.spec_has_write()
                    &&& after.flags.policy_eq(mapping.flags)
                },
                Ok(Resolution::Upgraded) => {
                    &&& old(self).table.spec_translate(page) matches Some(mapping)
                    &&& !(old(frames).spec_refcount(mapping.frame) is Cow)
                    &&& final(frames)@ == old(frames)@
                    &&& final(self).table@ == old(self).table@.insert(
                        page,
                        Mapping { frame: mapping.frame, flags: mapping.flags.spec_write(true) },
                    )
                    &&& final(self).table.spec_translate(page) matches Some(after)
                    &&& after.frame == mapping.frame
                    &&& after.flags.spec_has_write()
                    &&& after.flags.policy_eq(mapping.flags)
                },
                Err(_) => *final(self) == *old(self) && final(frames)@ == old(frames)@,
            },
    {
        let mapping = match self.table.translate(page) {
            Some(mapping) => mapping,
            None => {
                return Err(SpaceError::NotMapped);
            },
        };
        let grant = match self.grants.contains(page) {
            Some((_, grant)) => grant,
            None => {
                return Err(SpaceError::NoGrant);
            },
        };
        if !grant.flags.has_write() {
            return Err(SpaceError::ReadOnly);
        }
        let flags = mapping.flags.write(true);
        if frames.refcount(mapping.frame).is_cow() {
            match frames.resolve_cow(mapping.frame, fresh) {
                Err(e) => Err(SpaceError::Frame(e)),
                Ok(_) => {
                    let _ = self.table.map(page, fresh, flags);
                    Ok(Resolution::Copied { from: mapping.frame, to: fresh })
                },
            }
        } else {
            let _ = self.table.map(page, mapping.frame, flags);
            Ok(Resolution::Upgraded)
        }
    }

    /// Duplicates the address space. The new one has the same grants. Every
    /// mapped page that a grant covers is handed on, in ascending order: its
    /// frame gets one more reference, and both address spaces then map the
    /// page to it, without the writable bit unless the frame is shared on
    /// purpose. A page that no grant covers is not handed on.
    ///
    /// Where the frame table refuses a reference, the duplication stops at
    /// that page and says so; the pages before it have been handed on, and it
    /// is for the caller to give up what the new address space holds.
    pub fn duplicate(&mut self, frames: &mut FrameTable) -> (r: Fork)
        requires
            old(self).wf(),
            old(frames).wf(),
        ensures
            final(self).wf(),
            final(frames).wf(),
            r.child.wf(),
            final(self).grants@ == old(self).grants@,
            r.child.grants@ == old(self).grants@,
            forked(
                *old(self),
                *old(frames),
                final(self).table,
                r.child.table,
                final(frames)@,
                fork_stop(r.fault),
            ),
            forall|n: nat|
                n < fork_stop(r.fault) ==> (#[trigger] fork_fault_at(*old(self), *old(frames), n))
                    is None,
            r.fault matches Some(fault) ==> fork_fault_at(
                *old(self),
                *old(frames),
                fault.page.number as nat,
            ) == Some(fault.error),
    {
        let ghost space = *old(self);
        let ghost counts = *old(frames);
        let frame_count: usize = frames.len();
        assert(counts@.len() == frame_count);
        let mut child = AddressSpace::new();
        let total: usize = self.grants.len();
        let mut k: usize = 0;
        while k < total
            invariant
                k <= total,
                total == self.grants@.len(),
                child.table.wf(),
                forall|page: Page| (#[trigger] child.table.spec_translate(page)) is None,
                child.grants@ == self.grants@.take(k as int),
            decreases total - k,
        {
            child.grants.grants.push(self.grants.grants[k]);
            k = k + 1;
            assert(child.grants@ =~= self.grants@.take(k as int));
        }
        assert(child.grants@ =~= self.grants@);
        let mut fault: Option<FrameFault> = None;
        let ghost mut cur: nat = 0;
        let mut index: usize = 0;
        while index < total && fault.is_none()
            invariant
                index <= total,
                total == space.grants@.len(),
                space.wf(),
                counts.wf(),
                counts@.len() <= usize::MAX,
                self.table.wf(),
                self.grants@ == space.grants@,
                child.table.wf(),
                child.grants@ == space.grants@,
                frames.wf(),
                fault is None ==> {
                    &&& cur <= usize::MAX
                    &&& forked(space, counts, self.table, child.table, frames@, cur)
                    &&& forall|n: nat|
                        n < cur ==> (#[trigger] fork_fault_at(space, counts, n)) is None
                    &&& forall|i: int|
                        0 <= i < index ==> (#[trigger] space.grants@[i]).spec_end() <= cur
                    &&& index < total ==> cur <= space.grants@[index as int].base.number
                },
                fault matches Some(stopped) ==> {
                    &&& forked(
                        space,
                        counts,
                        self.table,
                        child.table,
                        frames@,
                        stopped.page.number as nat,
                    )
                    &&& forall|n: nat|
                        n < stopped.page.number ==> (#[trigger] fork_fault_at(space, counts, n))
                            is None
                    &&& fork_fault_at(space, counts, stopped.page.number as nat) == Some(
                        stopped.error,
                    )
                },
            decreases total - index,
        {
            let grant = self.grants.grants[index];
            let ghost base = grant.base.number as nat;
            proof {
                assert(grant == space.grants@[index as int]);
                assert(grant.wf());
                assert forall|n: nat| cur <= n < base implies (#[trigger] inherited(space, n))
                    is None by {
                    let page = Page { number: n as usize };
                    assert forall|i: int| index <= i < space.grants@.len() implies page.number < (
                    #[trigger] space.grants@[i]).base.number by {
                        if i > index {
                            assert(space.grants@[index as int].spec_end()
                                <= space.grants@[i].base.number);
                        }
                    }
                    lemma_between_grants(space.grants@, index as int, page);
                }
                lemma_nothing_inherited(
                    space,
                    counts,
                    self.table,
                    child.table,
                    frames@,
                    cur,
                    base,
                );
                cur = base;
            }
            let mut offset: usize = 0;
            while offset < grant.page_count && fault.is_none()
                invariant
                    offset <= grant.page_count,
                    index < total,
                    total == space.grants@.len(),
                    grant == space.grants@[index as int],
                    grant.wf(),
                    space.wf(),
                    counts.wf(),
                    counts@.len() <= usize::MAX,
                    self.table.wf(),
                    self.grants@ == space.grants@,
                    child.table.wf(),
                    child.grants@ == space.grants@,
                    frames.wf(),
                    fault is None ==> {
                        &&& forked(
                            space,
                            counts,
                            self.table,
                            child.table,
                            frames@,
                            (grant.base.number + offset) as nat,
                        )
                        &&& forall|n: nat|
                            n < grant.base.number + offset ==> (#[trigger] fork_fault_at(
                                space,
                                counts,
                                n,
                            )) is None
                    },
                    fault matches Some(stopped) ==> {
                        &&& forked(
                            space,
                            counts,
                            self.table,
                            child.table,
                            frames@,
                            stopped.page.number as nat,
                        )
                        &&& forall|n: nat|
                            n < stopped.page.number ==> (#[trigger] fork_fault_at(
                                space,
                                counts,
                                n,
                            )) is None
                        &&& fork_fault_at(space, counts, stopped.page.number as nat) == Some(
                            stopped.error,
                        )
                    },
                decreases grant.page_count - offset,
            {
                let page = Page { number: grant.base.number + offset };
                let ghost n = page.number as nat;
                proof {
                    crate::grant::lemma_covering_unique(space.grants@, page, index as int);
                    assert(self.table.spec_translate(page) == parent_after_fork(
                        space,
                        counts,
                        n,
                        page,
                    ));
                }
                match self.table.translate(page) {
                    Some(mapping) => {
                        fault = hand_on(
                            &mut self.table,
                            &mut child.table,
                            frames,
                            page,
                            mapping,
                            Ghost(space),
                            Ghost(counts),
                        );
                    },
                    None => {
                        proof {
                            assert(inherited(space, n) is None);
                            lemma_nothing_inherited(
                                space,
                                counts,
                                self.table,
                                child.table,
                                frames@,
                                n,
                                n + 1,
                            );
                        }
                    },
                }
                offset = offset + 1;
            }
            proof {
                if fault is None {
                    cur = grant.spec_end();
                    assert forall|i: int| 0 <= i < index + 1 implies (
                    #[trigger] space.grants@[i]).spec_end() <= cur by {
                        if i < index {
                            assert(space.grants@[i].spec_end()
                                <= space.grants@[index as int].base.number);
                        }
                    }
                    if index + 1 < total {
                        assert(space.grants@[index as int].spec_end() <= space.grants@[index
                            + 1].base.number);
                    }
                }
            }
            index = index + 1;
        }
        proof {
            if fault is None {
                let end = (usize::MAX + 1) as nat;
                assert forall|n: nat| cur <= n < end implies (#[trigger] inherited(space, n))
                    is None by {
                    lemma_between_grants(space.grants@, index as int, Page { number: n as usize });
                }
                lemma_nothing_inherited(
                    space,
                    counts,
                    self.table,
                    child.table,
                    frames@,
                    cur,
                    end,
                );
            }
        }
        Fork { child, fault }
    }

    /// Releases the address space: every mapped page that a grant covers gives
    /// up its reference to its frame, in ascending order. Where a frame has
    /// no reference left to give up, or is not tracked, the release stops at
    /// that page and says so: to go on could free a frame twice.
    pub fn release(self, frames: &mut FrameTable) -> (r: Result<(), FrameFault>)
        requires
            self.wf(),
            old(frames).wf(),
        ensures
            final(frames).wf(),
            released(self, *old(frames), final(frames)@, release_stop(r)),
            forall|n: nat|
                n < release_stop(r) ==> (#[trigger] release_fault_at(self, *old(frames), n))
                    is None,
            r matches Err(fault) ==> release_fault_at(
                self,
                *old(frames),
                fault.page.number as nat,
            ) == Some(fault.error),
    {
        let ghost counts = *old(frames);
        let frame_count: usize = frames.len();
        assert(counts@.len() == frame_count);
        let total: usize = self.grants.len();
        let mut fault: Option<FrameFault> = None;
        let ghost mut cur: nat = 0;
        let mut index: usize = 0;
        while index < total && fault.is_none()
            invariant
                index <= total,
                total == self.grants@.len(),
                self.wf(),
                counts.wf(),
                counts@.len() <= usize::MAX,
                frames.wf(),
                fault is None ==> {
                    &&& cur <= usize::MAX
                    &&& released(self, counts, frames@, cur)
                    &&& forall|n: nat|
                        n < cur ==> (#[trigger] release_fault_at(self, counts, n)) is None
                    &&& forall|i: int|
                        0 <= i < index ==> (#[trigger] self.grants@[i]).spec_end() <= cur
                    &&& index < total ==> cur <= self.grants@[index as int].base.number
                },
                fault matches Some(stopped) ==> {
                    &&& released(self, counts, frames@, stopped.page.number as nat)
                    &&& forall|n: nat|
                        n < stopped.page.number ==> (#[trigger] release_fault_at(self, counts, n))
                            is None
                    &&& release_fault_at(self, counts, stopped.page.number as nat) == Some(
                        stopped.error,
                    )
                },
            decreases total - index,
        {
            let grant = self.grants.grants[index];
            let ghost base = grant.base.number as nat;
            proof {
                assert(grant == self.grants@[index as int]);
                assert(grant.wf());
                assert forall|n: nat| cur <= n < base implies (#[trigger] inherited(self, n))
                    is None by {
                    let page = Page { number: n as usize };
                    assert forall|i: int| index <= i < self.grants@.len() implies page.number < (
                    #[trigger] self.grants@[i]).base.number by {
                        if i > index {
                            assert(self.grants@[index as int].spec_end()
                                <= self.grants@[i].base.number);
                        }
                    }
                    lemma_between_grants(self.grants@, index as int, page);
                }
                lemma_nothing_released(self, counts, frames@, cur, base);
                cur = base;
            }
            let mut offset: usize = 0;
            while offset < grant.page_count && fault.is_none()
                invariant
                    offset <= grant.page_count,
                    index < total,
                    total == self.grants@.len(),
                    grant == self.grants@[index as int],
                    grant.wf(),
                    self.wf(),
                    counts.wf(),
                    counts@.len() <= usize::MAX,
                    frames.wf(),
                    fault is None ==> {
                        &&& released(
                            self,
                            counts,
                            frames@,
                            (grant.base.number + offset) as nat,
                        )
                        &&& forall|n: nat|
                            n < grant.base.number + offset ==> (#[trigger] release_fault_at(
                                self,
                                counts,
                                n,
                            )) is None
                    },
                    fault matches Some(stopped) ==> {
                        &&& released(self, counts, frames@, stopped.page.number as nat)
                        &&& forall|n: nat|
                            n < stopped.page.number ==> (#[trigger] release_fault_at(
                                self,
                                counts,
                                n,
                            )) is None
                        &&& release_fault_at(self, counts, stopped.page.number as nat) == Some(
                            stopped.error,
                        )
                    },
                decreases grant.page_count - offset,
            {
                let page = Page { number: grant.base.number + offset };
                let ghost n = page.number as nat;
                proof {
                    crate::grant::lemma_covering_unique(self.grants@, page, index as int);
                }
                match self.table.translate(page) {
                    Some(mapping) => {
                        fault = give_up(frames, page, mapping, Ghost(self), Ghost(counts));
                    },
                    None => {
                        proof {
                            assert(inherited(self, n) is None);
                            lemma_nothing_released(self, counts, frames@, n, n + 1);
                        }
                    },
                }
                offset = offset + 1;
            }
            proof {
                if fault is None {
                    cur = grant.spec_end();
                    assert forall|i: int| 0 <= i < index + 1 implies (
                    #[trigger] self.grants@[i]).spec_end() <= cur by {
                        if i < index {
                            assert(self.grants@[i].spec_end()
                                <= self.grants@[index as int].base.number);
                        }
                    }
                    if index + 1 < total {
                        assert(self.grants@[index as int].spec_end() <= self.grants@[index
                            + 1].base.number);
                    }
                }
            }
            index = index + 1;
        }
        proof {
            if fault is None {
                let end = (usize::MAX + 1) as nat;
                assert forall|n: nat| cur <= n < end implies (#[trigger] inherited(self, n))
                    is None by {
                    lemma_between_grants(self.grants@, index as int, Page { number: n as usize });
                }
                lemma_nothing_released(self, counts, frames@, cur, end);
            }
        }
        match fault {
            Some(fault) => Err(fault),
            None => Ok(()),
        }
    }
}

} // verus!
