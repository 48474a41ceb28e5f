//! The consistency audit: a walk over every mapping of an address space's
//! user half that holds the page table against the grants and the frame table.

use vstd::prelude::*;
use crate::frame::{Frame, FrameTable, RefCount};
use crate::grant::{Grant, GrantMap};
use crate::paging::{Page, VirtualAddress, ENTRY_COUNT, PAGE_SIZE};
use crate::space::AddressSpace;
use crate::table::{Level1, Level2, Level3, Mapping, PageTable};

verus! {

/// Number of entries of the root table that belong to the user half.
pub const USER_ENTRIES: usize = 256;

/// Number of pages in the user half: those below it are audited.
pub open spec fn user_pages() -> nat {
    0x8_0000_0000
}

/// Something that the audit found and that the kernel can live with.
#[derive(Clone, Copy, Debug, PartialEq, Eq, Structural)]
pub enum Divergence {
    /// The page is mapped, but no grant covers it.
    MissingGrant { page: Page, mapping: Mapping },
    /// The flags of the mapping differ from those of the grant in more than
    /// the accessed, dirty and writable bits.
    FlagMismatch { page: Page, grant: Grant, mapping: Mapping },
    /// The mapping can be written through, the frame is not shared
    /// copy-on-write, and the grant does not permit writing.
    ExcessWrite { page: Page, grant: Grant, mapping: Mapping },
    /// The page is mapped to a frame that the frame table does not track.
    UntrackedFrame { page: Page, mapping: Mapping },
    /// The frame is mapped by `observed` pages, which is not what its
    /// recorded count stands for.
    RefCountMismatch { frame: Frame, recorded: RefCount, observed: u64 },
}

/// A mapping that can be written through although its frame is shared
/// copy-on-write. The audit stops at the first one.
#[derive(Clone, Copy, Debug, PartialEq, Eq, Structural)]
pub struct CowViolation {
    pub page: Page,
    pub mapping: Mapping,
}

/// What the audit found.
#[derive(Debug)]
pub struct Report {
    /// The divergences, page by page in ascending order, then frame by frame.
    pub divergences: Vec<Divergence>,
    /// The violation that stopped the audit, if one did.
    pub fatal: Option<CowViolation>,
}

/// An audit under way. Address spaces that share frames are walked one after
/// the other into the same audit, so that the tally of a frame holds its
/// mappings in all of them before it is held against the recorded count.
#[derive(Debug)]
pub struct Audit {
    /// What the walks have found, in the order in which they found it.
    pub divergences: Vec<Divergence>,
    /// For each tracked frame, by its number, how many mappings to it the walks have met.
    pub tally: Vec<u64>,
    /// The violation that stopped the audit, if one did.
    pub fatal: Option<CowViolation>,
}

/// What the page with that number is mapped to. No page has a number beyond
/// the machine's word.
pub open spec fn mapped_at(table: PageTable, n: nat) -> Option<Mapping> {
    if n <= usize::MAX {
        table.spec_translate(Page { number: n as usize })
    } else {
        None
    }
}

/// What the audit finds when it holds a mapping against the grants.
pub open spec fn grant_findings(grants: GrantMap, page: Page, mapping: Mapping) -> Seq<
    Divergence,
> {
    match grants.spec_contains(page) {
        None => seq![Divergence::MissingGrant { page, mapping }],
        Some(grant) => if grant.flags.policy_eq(mapping.flags) {
            Seq::empty()
        } else {
            seq![Divergence::FlagMismatch { page, grant, mapping }]
        },
    }
}

/// What the audit finds when it holds a mapping against the frame table.
pub open spec fn frame_findings(
    grants: GrantMap,
    frames: FrameTable,
    page: Page,
    mapping: Mapping,
) -> Seq<Divergence> {
    if !frames.tracks(mapping.frame) {
        seq![Divergence::UntrackedFrame { page, mapping }]
    } else if (frames.spec_refcount(mapping.frame) is One || frames.spec_refcount(mapping.frame) is Shared)
        && mapping.flags.spec_has_write() && (grants.spec_contains(page) matches Some(grant)
        && !grant.flags.spec_has_write()) {
        seq![
            Divergence::ExcessWrite { page, grant: grants.spec_contains(page)->Some_0, mapping },
        ]
    } else {
        Seq::empty()
    }
}

/// What the audit finds at the page with that number.
pub open spec fn page_findings(space: AddressSpace, frames: FrameTable, n: nat) -> Seq<
    Divergence,
> {
    match mapped_at(space.table, n) {
        None => Seq::empty(),
        Some(mapping) => {
            let page = Page { number: n as usize };
            grant_findings(space.grants, page, mapping) + frame_findings(
                space.grants,
                frames,
                page,
                mapping,
            )
        },
    }
}

/// What the audit finds at the pages with a number below `n`, in ascending order.
pub open spec fn findings_below(space: AddressSpace, frames: FrameTable, n: nat) -> Seq<
    Divergence,
>
    decreases n,
{
    if n == 0 {
        Seq::empty()
    } else {
        findings_below(space, frames, (n - 1) as nat) + page_findings(
            space,
            frames,
            (n - 1) as nat,
        )
    }
}

/// Whether the page with that number is mapped so that it can be written
/// through, to a frame that is shared copy-on-write.
pub open spec fn writable_cow_at(space: AddressSpace, frames: FrameTable, n: nat) -> bool {
    mapped_at(space.table, n) matches Some(mapping) && frames.spec_refcount(mapping.frame) is Cow
        && mapping.flags.spec_has_write()
}

/// How many pages with a number below `n` are mapped to the frame.
pub open spec fn count_below(table: PageTable, frame: Frame, n: nat) -> nat
    decreases n,
{
    if n == 0 {
        0
    } else {
        count_below(table, frame, (n - 1) as nat) + if mapped_at(table, (n - 1) as nat) matches Some(
            mapping,
        ) && mapping.frame == frame {
            1nat
        } else {
            0nat
        }
    }
}

/// What the audit finds when it holds the tally of the frame with that
/// number against its recorded count: a frame that was met, and not as often
/// as its count says.
pub open spec fn frame_mismatch(frames: FrameTable, tally: Seq<u64>, n: nat) -> Seq<Divergence> {
    let frame = Frame { number: n as usize };
    let observed = tally[n as int];
    if observed != 0 && observed != frames.spec_refcount(frame).spec_count() {
        seq![Divergence::RefCountMismatch { frame, recorded: frames.spec_refcount(frame), observed }]
    } else {
        Seq::empty()
    }
}

/// What the audit finds at the frames with a number below `n`, in ascending order.
pub open spec fn mismatches_below(frames: FrameTable, tally: Seq<u64>, n: nat) -> Seq<Divergence>
    decreases n,
{
    if n == 0 {
        Seq::empty()
    } else {
        mismatches_below(frames, tally, (n - 1) as nat) + frame_mismatch(
            frames,
            tally,
            (n - 1) as nat,
        )
    }
}

/// For each of the first `frames` frames, how many pages of the user half the
/// table maps to it.
pub open spec fn observed_counts(table: PageTable, frames: nat) -> Seq<u64> {
    Seq::new(frames, |f: int| count_below(table, Frame { number: f as usize }, user_pages()) as u64)
}

/// The number of the page up to which a walk has gone that went as far as
/// `cur` unless a violation stopped it.
pub open spec fn walk_stop(fatal: Option<CowViolation>, cur: nat) -> nat {
    match fatal {
        None => cur,
        Some(v) => (v.page.number + 1) as nat,
    }
}

/// No more pages below a number are mapped to a frame than there are pages below it.
pub proof fn lemma_count_bounded(table: PageTable, frame: Frame, n: nat)
    ensures
        count_below(table, frame, n) <= n,
    decreases n,
{
    if n > 0 {
        lemma_count_bounded(table, frame, (n - 1) as nat);
    }
}

/// Across a stretch of pages of which none is mapped, the audit finds nothing
/// and counts nothing.
pub proof fn lemma_unmapped_stretch(space: AddressSpace, frames: FrameTable, a: nat, b: nat)
    requires
        a <= b,
        forall|n: nat| a <= n < b ==> (#[trigger] mapped_at(space.table, n)) is None,
    ensures
        findings_below(space, frames, b) == findings_below(space, frames, a),
        forall|frame: Frame| #[trigger]
            count_below(space.table, frame, b) == count_below(space.table, frame, a),
        forall|n: nat| a <= n < b ==> !#[trigger] writable_cow_at(space, frames, n),
    decreases b - a,
{
    if a < b {
        lemma_unmapped_stretch(space, frames, a, (b - 1) as nat);
        assert(mapped_at(space.table, (b - 1) as nat) is None);
        assert(findings_below(space, frames, b) =~= findings_below(space, frames, a));
        assert forall|frame: Frame| #[trigger]
            count_below(space.table, frame, b) == count_below(space.table, frame, a) by {
            assert(count_below(space.table, frame, (b - 1) as nat) == count_below(
                space.table,
                frame,
                a,
            ));
        }
    }
}

/// What the audit finds at a page is part of what it finds below every
/// larger page number.
pub proof fn lemma_findings_reported(
    space: AddressSpace,
    frames: FrameTable,
    n: nat,
    stop: nat,
    divergence: Divergence,
)
    requires
        n < stop,
        page_findings(space, frames, n).contains(divergence),
    ensures
        findings_below(space, frames, stop).contains(divergence),
    decreases stop,
{
    let before = findings_below(space, frames, (stop - 1) as nat);
    let here = page_findings(space, frames, (stop - 1) as nat);
    if n == stop - 1 {
        let i = choose|i: int| 0 <= i < here.len() && here[i] == divergence;
        assert((before + here)[before.len() + i] == divergence);
    } else {
        lemma_findings_reported(space, frames, n, (stop - 1) as nat, divergence);
        let i = choose|i: int| 0 <= i < before.len() && before[i] == divergence;
        assert((before + here)[i] == divergence);
    }
}

/// Where the audit finds nothing at any page below a number, it finds
/// nothing below that number.
pub proof fn lemma_nothing_found(space: AddressSpace, frames: FrameTable, stop: nat)
    requires
        forall|n: nat| n < stop ==> (#[trigger] page_findings(space, frames, n)).len() == 0,
    ensures
        findings_below(space, frames, stop) == Seq::<Divergence>::empty(),
    decreases stop,
{
    if stop > 0 {
        lemma_nothing_found(space, frames, (stop - 1) as nat);
        assert(page_findings(space, frames, (stop - 1) as nat).len() == 0);
        assert(findings_below(space, frames, stop) =~= Seq::<Divergence>::empty());
    }
}

/// A page of the user half that is mapped while no grant covers it is
/// reported as such by an audit that no violation stops.
pub proof fn lemma_missing_grant_reported(space: AddressSpace, frames: FrameTable, page: Page)
    requires
        (page.number as nat) < user_pages(),
        space.table.spec_translate(page) is Some,
        space.grants.spec_contains(page) is None,
    ensures
        findings_below(space, frames, user_pages()).contains(
            Divergence::MissingGrant { page, mapping: space.table.spec_translate(page)->Some_0 },
        ),
{
    let mapping = space.table.spec_translate(page)->Some_0;
    let divergence = Divergence::MissingGrant { page, mapping };
    let found = grant_findings(space.grants, page, mapping);
    let rest = frame_findings(space.grants, frames, page, mapping);
    assert(found[0] == divergence);
    assert((found + rest)[0] == divergence);
    lemma_findings_reported(space, frames, page.number as nat, user_pages(), divergence);
}

/// The index that a page number has at a level whose entries span `span`
/// pages each, in a table that starts at `base`.
pub proof fn lemma_level_index(n: nat, base: nat, i: nat, span: nat)
    requires
        span > 0,
        base % (512 * span) == 0,
        i < 512,
        base + i * span <= n < base + (i + 1) * span,
    ensures
        (n / span) % 512 == i,
{
    let whole = 512 * span;
    let q = base / whole;
    vstd::arithmetic::div_mod::lemma_fundamental_div_mod(base as int, whole as int);
    assert(base == whole * q);
    let r = (n - base - i * span) as nat;
    assert(r < span) by (nonlinear_arith)
        requires
            r == n - base - i * span,
            n < base + (i + 1) * span,
            base + i * span <= n,
    ;
    assert(n == (q * 512 + i) * span + r) by (nonlinear_arith)
        requires
            r == n - base - i * span,
            base == (512 * span) * q,
            base + i * span <= n,
    ;
    vstd::arithmetic::div_mod::lemma_fundamental_div_mod_converse_div(
        n as int,
        span as int,
        (q * 512 + i) as int,
        r as int,
    );
    assert(n / span == q * 512 + i);
}

/// The entries of a table that starts at a multiple of its whole span start
/// at multiples of their own span.
pub proof fn lemma_entry_aligned(base: nat, i: nat, span: nat)
    requires
        span > 0,
        base % (512 * span) == 0,
    ensures
        (base + i * span) % span == 0,
{
    let whole = 512 * span;
    let q = base / whole;
    vstd::arithmetic::div_mod::lemma_fundamental_div_mod(base as int, whole as int);
    assert(base == whole * q);
    assert(base + i * span == (q * 512 + i) * span + 0) by (nonlinear_arith)
        requires
            base == (512 * span) * q,
    ;
    vstd::arithmetic::div_mod::lemma_fundamental_div_mod_converse_mod(
        (base + i * span) as int,
        span as int,
        (q * 512 + i) as int,
        0,
    );
}

/// Whether the table maps the pages of the 512 numbers from `base` on as the
/// leaf table does.
pub open spec fn subtree1(table: PageTable, leaf: Level1, base: nat) -> bool {
    forall|n: nat|
        base <= n < base + 512 && n <= usize::MAX ==> #[trigger] mapped_at(table, n)
            == leaf.spec_entry(Page { number: n as usize })
}

/// Whether the table maps the pages of the numbers from `base` on that a
/// level 2 table spans as that table does.
pub open spec fn subtree2(table: PageTable, level: Level2, base: nat) -> bool {
    forall|n: nat|
        base <= n < base + 0x4_0000 && n <= usize::MAX ==> #[trigger] mapped_at(table, n)
            == level.spec_entry(Page { number: n as usize })
}

/// Whether the table maps the pages of the numbers from `base` on that a
/// level 3 table spans as that table does.
pub open spec fn subtree3(table: PageTable, level: Level3, base: nat) -> bool {
    forall|n: nat|
        base <= n < base + 0x800_0000 && n <= usize::MAX ==> #[trigger] mapped_at(table, n)
            == level.spec_entry(Page { number: n as usize })
}

impl Audit {
    /// The tally has an entry for each tracked frame, and each entry leaves
    /// room for the mappings of one more address space.
    pub open spec fn ready(self, frames: FrameTable) -> bool {
        &&& self.tally@.len() == frames@.len()
        &&& forall|f: int|
            0 <= f < self.tally@.len() ==> (#[trigger] self.tally@[f]) + user_pages() <= u64::MAX
    }

    /// The audit is what `init` becomes by a walk over the pages below `cur`
    /// of the address space, or over those up to the first page that is
    /// mapped writable to a frame shared copy-on-write, if there is one below `cur`.
    pub open spec fn walked(
        self,
        init: Audit,
        space: AddressSpace,
        frames: FrameTable,
        cur: nat,
    ) -> bool {
        let stop = walk_stop(self.fatal, cur);
        &&& cur <= user_pages()
        &&& frames@.len() <= usize::MAX
        &&& self.tally@.len() == frames@.len()
        &&& init.tally@.len() == frames@.len()
        &&& self.divergences@ == init.divergences@ + findings_below(space, frames, stop)
        &&& forall|f: int|
            0 <= f < frames@.len() ==> #[trigger] self.tally@[f] == init.tally@[f] + count_below(
                space.table,
                Frame { number: f as usize },
                stop,
            )
        &&& match self.fatal {
            None => forall|n: nat| n < cur ==> !#[trigger] writable_cow_at(space, frames, n),
            Some(v) => {
                &&& (v.page.number as nat) < cur
                &&& mapped_at(space.table, v.page.number as nat) == Some(v.mapping)
                &&& writable_cow_at(space, frames, v.page.number as nat)
                &&& forall|n: nat|
                    n < v.page.number ==> !#[trigger] writable_cow_at(space, frames, n)
            },
        }
    }

    /// Where the walk goes on over pages that are not mapped, the audit stays as it is.
    proof fn lemma_skip(
        self,
        init: Audit,
        space: AddressSpace,
        frames: FrameTable,
        a: nat,
        b: nat,
    )
        requires
            self.walked(init, space, frames, a),
            a <= b <= user_pages(),
            forall|n: nat| a <= n < b ==> (#[trigger] mapped_at(space.table, n)) is None,
        ensures
            self.walked(init, space, frames, b),
    {
        lemma_unmapped_stretch(space, frames, a, b);
        if self.fatal is None {
            assert forall|f: int| 0 <= f < frames@.len() implies #[trigger] self.tally@[f]
                == init.tally@[f] + count_below(space.table, Frame { number: f as usize }, b) by {
                assert(count_below(space.table, Frame { number: f as usize }, b) == count_below(
                    space.table,
                    Frame { number: f as usize },
                    a,
                ));
            }
        }
    }

    /// Whether the tally has an entry for each tracked frame, each with room
    /// for the mappings of one more address space.
    pub fn is_ready(&self, frames: &FrameTable) -> (r: bool)
        ensures
            r == self.ready(*frames),
    {
        if self.tally.len() != frames.len() {
            return false;
        }
        let mut i: usize = 0;
        while i < self.tally.len()
            invariant
                i <= self.tally@.len(),
                forall|f: int| 0 <= f < i ==> (#[trigger] self.tally@[f]) + user_pages() <= u64::MAX,
            decreases self.tally@.len() - i,
        {
            if self.tally[i] > u64::MAX - 0x8_0000_0000 {
                return false;
            }
            i = i + 1;
        }
        true
    }

    /// An audit that has found nothing and met no frame.
    pub fn new(frames: &FrameTable) -> (r: Audit)
        ensures
            r.ready(*frames),
            r.divergences@ == Seq::<Divergence>::empty(),
            r.tally@ == Seq::new(frames@.len(), |f: int| 0u64),
            r.fatal is None,
    {
        let mut tally: Vec<u64> = Vec::new();
        let mut k: usize = 0;
        while k < frames.len()
            invariant
                k <= frames@.len(),
                tally@ == Seq::new(k as nat, |f: int| 0u64),
            decreases frames@.len() - k,
        {
            tally.push(0);
            k = k + 1;
            assert(tally@ =~= Seq::new(k as nat, |f: int| 0u64));
        }
        Audit { divergences: Vec::new(), tally, fatal: None }
    }

    /// Walks the user half of an address space: every mapping is held against
    /// the grant that covers its page and against the recorded count of its
    /// frame, and is added to the tally of its frame. The walk stops at the
    /// first mapping that can be written through although its frame is shared
    /// copy-on-write. An audit that such a mapping has stopped walks no further.
    pub fn walk(&mut self, addr_space: &AddressSpace, frames: &FrameTable)
        requires
            addr_space.wf(),
            frames.wf(),
            old(self).ready(*frames),
        ensures
            old(self).fatal is Some ==> *final(self) == *old(self),
            old(self).fatal is None ==> final(self).walked(
                *old(self),
                *addr_space,
                *frames,
                user_pages(),
            ),
    {
        if self.fatal.is_some() {
            return ;
        }
        let ghost init = *self;
        let frame_count: usize = frames.len();
        proof {
            assert(frames@.len() == frame_count);
            assert(self.divergences@ =~= init.divergences@ + findings_below(
                *addr_space,
                *frames,
                0,
            ));
        }
        let mut i: usize = 0;
        while i < USER_ENTRIES && self.fatal.is_none()
            invariant
                i <= USER_ENTRIES,
                addr_space.wf(),
                frames.wf(),
                init.ready(*frames),
                init.fatal is None,
                self.fatal is None ==> self.walked(
                    init,
                    *addr_space,
                    *frames,
                    (i * 0x800_0000) as nat,
                ),
                self.fatal is Some ==> self.walked(init, *addr_space, *frames, user_pages()),
            decreases USER_ENTRIES - i,
        {
            let start: u64 = (i as u64) * 0x800_0000;
            let ghost a = start as nat;
            proof {
                lemma_entry_aligned(0, i as nat, 0x800_0000);
            }
            match addr_space.table.next(i) {
                Some(below) => {
                    proof {
                        assert forall|n: nat|
                            a <= n < a + 0x800_0000 && n <= usize::MAX implies #[trigger] mapped_at(
                            addr_space.table,
                            n,
                        ) == below.spec_entry(Page { number: n as usize }) by {
                            lemma_level_index(n, 0, i as nat, 0x800_0000);
                        }
                    }
                    walk_level3(below, start, addr_space, frames, self, Ghost(init));
                },
                None => {
                    proof {
                        assert forall|n: nat| a <= n < a + 0x800_0000 implies (
                        #[trigger] mapped_at(addr_space.table, n)) is None by {
                            if n <= usize::MAX {
                                lemma_level_index(n, 0, i as nat, 0x800_0000);
                            }
                        }
                        self.lemma_skip(init, *addr_space, *frames, a, a + 0x800_0000);
                    }
                },
            }
            i = i + 1;
        }
    }

    /// Ends the audit. Unless a violation has stopped it, the tally of each
    /// frame that was met is held against the recorded count of the frame.
    pub fn finish(self, frames: &FrameTable) -> (report: Report)
        requires
            frames.wf(),
            self.tally@.len() == frames@.len(),
        ensures
            report.fatal == self.fatal,
            report.divergences@ == self.divergences@ + if self.fatal is None {
                mismatches_below(*frames, self.tally@, frames@.len())
            } else {
                Seq::empty()
            },
    {
        let Audit { divergences, tally, fatal } = self;
        let mut divergences = divergences;
        let ghost walked = divergences@;
        if fatal.is_none() {
            let mut f: usize = 0;
            while f < frames.len()
                invariant
                    f <= frames@.len(),
                    frames.wf(),
                    tally@.len() == frames@.len(),
                    divergences@ == walked + mismatches_below(*frames, tally@, f as nat),
                decreases frames@.len() - f,
            {
                let frame = Frame { number: f };
                let recorded = frames.refcount(frame);
                let observed: u64 = tally[f];
                if observed != 0 && observed != recorded.count() as u64 {
                    divergences.push(Divergence::RefCountMismatch { frame, recorded, observed });
                }
                proof {
                    assert(divergences@ =~= walked + (mismatches_below(*frames, tally@, f as nat)
                        + frame_mismatch(*frames, tally@, f as nat)));
                }
                f = f + 1;
            }
        } else {
            assert(divergences@ =~= walked + Seq::<Divergence>::empty());
        }
        Report { divergences, fatal }
    }
}

/// Holds one mapping against the grants and the frame table.
fn inspect(
    space: &AddressSpace,
    frames: &FrameTable,
    page: Page,
    mapping: Mapping,
    state: &mut Audit,
    Ghost(init): Ghost<Audit>,
)
    requires
        space.wf(),
        frames.wf(),
        init.ready(*frames),
        (page.number as nat) < user_pages(),
        space.table.spec_translate(page) == Some(mapping),
        old(state).fatal is None,
        old(state).walked(init, *space, *frames, page.number as nat),
    ensures
        final(state).walked(init, *space, *frames, (page.number + 1) as nat),
{
    let ghost n = page.number as nat;
    let ghost before = state.divergences@;
    assert(mapped_at(space.table, n) == Some(mapping));
    let grant = space.grants.contains(page);
    match grant {
        None => {
            state.divergences.push(Divergence::MissingGrant { page, mapping });
        },
        Some((_, found)) => {
            if !found.flags.is_policy_eq(&mapping.flags) {
                state.divergences.push(Divergence::FlagMismatch { page, grant: found, mapping });
            }
        },
    }
    assert(state.divergences@ =~= before + grant_findings(space.grants, page, mapping));
    if !frames.is_tracked(mapping.frame) {
        state.divergences.push(Divergence::UntrackedFrame { page, mapping });
    } else {
        let index: usize = mapping.frame.number;
        proof {
            lemma_count_bounded(space.table, mapping.frame, n);
        }
        let seen: u64 = state.tally[index];
        state.tally[index] = seen + 1;
        match frames.refcount(mapping.frame) {
            RefCount::Zero => {},
            RefCount::Cow(_) => {
                if mapping.flags.has_write() {
                    state.fatal = Some(CowViolation { page, mapping });
                }
            },
            _ => {
                if mapping.flags.has_write() {
                    if let Some((_, found)) = grant {
                        if !found.flags.has_write() {
                            state.divergences.push(
                                Divergence::ExcessWrite { page, grant: found, mapping },
                            );
                        }
                    }
                }
            },
        }
    }
    proof {
        assert(state.divergences@ =~= before + (grant_findings(space.grants, page, mapping)
            + frame_findings(space.grants, *frames, page, mapping)));
        assert(state.divergences@ =~= init.divergences@ + findings_below(
            *space,
            *frames,
            n + 1,
        ));
        assert forall|f: int| 0 <= f < frames@.len() implies #[trigger] state.tally@[f]
            == init.tally@[f] + count_below(space.table, Frame { number: f as usize }, n + 1) by {
            let frame = Frame { number: f as usize };
            assert(old(state).tally@[f] == init.tally@[f] + count_below(space.table, frame, n));
            assert((frame == mapping.frame) <==> (f == mapping.frame.number));
            if frames.tracks(mapping.frame) {
                assert(state.tally@ == old(state).tally@.update(
                    mapping.frame.number as int,
                    (old(state).tally@[mapping.frame.number as int] + 1) as u64,
                ));
            } else {
                assert(state.tally@ == old(state).tally@);
            }
        }
    }
}

/// Walks a leaf table whose first entry stands for the page number `base`.
fn walk_level1(
    leaf: &Level1,
    base: u64,
    space: &AddressSpace,
    frames: &FrameTable,
    state: &mut Audit,
    Ghost(init): Ghost<Audit>,
)
    requires
        leaf.wf(),
        space.wf(),
        frames.wf(),
        init.ready(*frames),
        base % 512 == 0,
        base + 512 <= user_pages(),
        subtree1(space.table, *leaf, base as nat),
        old(state).fatal is None,
        old(state).walked(init, *space, *frames, base as nat),
    ensures
        final(state).walked(init, *space, *frames, (base + 512) as nat),
{
    let mut i: usize = 0;
    while i < ENTRY_COUNT && state.fatal.is_none()
        invariant
            i <= ENTRY_COUNT,
            leaf.wf(),
            space.wf(),
            frames.wf(),
            init.ready(*frames),
            base % 512 == 0,
            base + 512 <= user_pages(),
            subtree1(space.table, *leaf, base as nat),
            state.fatal is None ==> state.walked(init, *space, *frames, (base + i) as nat),
            state.fatal is Some ==> state.walked(init, *space, *frames, (base + 512) as nat),
        decreases ENTRY_COUNT - i,
    {
        let number: u64 = base + i as u64;
        let ghost n = number as nat;
        let entry = leaf.entry(i);
        proof {
            if n <= usize::MAX {
                lemma_level_index(n, base as nat, i as nat, 1);
                assert(mapped_at(space.table, n) == leaf.spec_entry(Page { number: n as usize }));
                assert(mapped_at(space.table, n) == entry);
            }
        }
        match entry {
            Some(mapping) if number <= usize::MAX as u64 => {
                inspect(space, frames, Page { number: number as usize }, mapping, state, Ghost(init));
            },
            _ => {
                proof {
                    state.lemma_skip(init, *space, *frames, n, n + 1);
                }
            },
        }
        i = i + 1;
    }
}

/// Walks a level 2 table whose first entry stands for the page number `base`.
fn walk_level2(
    level: &Level2,
    base: u64,
    space: &AddressSpace,
    frames: &FrameTable,
    state: &mut Audit,
    Ghost(init): Ghost<Audit>,
)
    requires
        level.wf(),
        space.wf(),
        frames.wf(),
        init.ready(*frames),
        base % 0x4_0000 == 0,
        base + 0x4_0000 <= user_pages(),
        subtree2(space.table, *level, base as nat),
        old(state).fatal is None,
        old(state).walked(init, *space, *frames, base as nat),
    ensures
        final(state).walked(init, *space, *frames, (base + 0x4_0000) as nat),
{
    let mut i: usize = 0;
    while i < ENTRY_COUNT && state.fatal.is_none()
        invariant
            i <= ENTRY_COUNT,
            level.wf(),
            space.wf(),
            frames.wf(),
            init.ready(*frames),
            base % 0x4_0000 == 0,
            base + 0x4_0000 <= user_pages(),
            subtree2(space.table, *level, base as nat),
            state.fatal is None ==> state.walked(init, *space, *frames, (base + i * 512) as nat),
            state.fatal is Some ==> state.walked(init, *space, *frames, (base + 0x4_0000) as nat),
        decreases ENTRY_COUNT - i,
    {
        let start: u64 = base + (i as u64) * 512;
        let ghost a = start as nat;
        proof {
            lemma_entry_aligned(base as nat, i as nat, 512);
        }
        match level.next(i) {
            Some(leaf) => {
                proof {
                    assert forall|n: nat| a <= n < a + 512 && n <= usize::MAX implies #[trigger] mapped_at(
                        space.table,
                        n,
                    ) == leaf.spec_entry(Page { number: n as usize }) by {
                        lemma_level_index(n, base as nat, i as nat, 512);
                    }
                }
                walk_level1(leaf, start, space, frames, state, Ghost(init));
            },
            None => {
                proof {
                    assert forall|n: nat| a <= n < a + 512 implies (#[trigger] mapped_at(
                        space.table,
                        n,
                    )) is None by {
                        if n <= usize::MAX {
                            lemma_level_index(n, base as nat, i as nat, 512);
                        }
                    }
                    state.lemma_skip(init, *space, *frames, a, a + 512);
                }
            },
        }
        i = i + 1;
    }
}

/// Walks a level 3 table whose first entry stands for the page number `base`.
fn walk_level3(
    level: &Level3,
    base: u64,
    space: &AddressSpace,
    frames: &FrameTable,
    state: &mut Audit,
    Ghost(init): Ghost<Audit>,
)
    requires
        level.wf(),
        space.wf(),
        frames.wf(),
        init.ready(*frames),
        base % 0x800_0000 == 0,
        base + 0x800_0000 <= user_pages(),
        subtree3(space.table, *level, base as nat),
        old(state).fatal is None,
        old(state).walked(init, *space, *frames, base as nat),
    ensures
        final(state).walked(init, *space, *frames, (base + 0x800_0000) as nat),
{
    let mut i: usize = 0;
    while i < ENTRY_COUNT && state.fatal.is_none()
        invariant
            i <= ENTRY_COUNT,
            level.wf(),
            space.wf(),
            frames.wf(),
            init.ready(*frames),
            base % 0x800_0000 == 0,
            base + 0x800_0000 <= user_pages(),
            subtree3(space.table, *level, base as nat),
            state.fatal is None ==> state.walked(
                init,
                *space,
                *frames,
                (base + i * 0x4_0000) as nat,
            ),
            state.fatal is Some ==> state.walked(
                init,
                *space,
                *frames,
                (base + 0x800_0000) as nat,
            ),
        decreases ENTRY_COUNT - i,
    {
        let start: u64 = base + (i as u64) * 0x4_0000;
        let ghost a = start as nat;
        proof {
            lemma_entry_aligned(base as nat, i as nat, 0x4_0000);
        }
        match level.next(i) {
            Some(below) => {
                proof {
                    assert forall|n: nat|
                        a <= n < a + 0x4_0000 && n <= usize::MAX implies #[trigger] mapped_at(
                        space.table,
                        n,
                    ) == below.spec_entry(Page { number: n as usize }) by {
                        lemma_level_index(n, base as nat, i as nat, 0x4_0000);
                    }
                }
                walk_level2(below, start, space, frames, state, Ghost(init));
            },
            None => {
                proof {
                    assert forall|n: nat| a <= n < a + 0x4_0000 implies (#[trigger] mapped_at(
                        space.table,
                        n,
                    )) is None by {
                        if n <= usize::MAX {
                            lemma_level_index(n, base as nat, i as nat, 0x4_0000);
                        }
                    }
                    state.lemma_skip(init, *space, *frames, a, a + 0x4_0000);
                }
            },
        }
        i = i + 1;
    }
}

/// Audits the user half of one address space: every mapping is held against
/// the grant that covers its page and against the recorded count of its
/// frame, and every frame that was met against the number of mappings seen.
///
/// The walk stops at the first mapping that can be written through although
/// its frame is shared copy-on-write, and the report then holds that mapping
/// and what was found up to its page. Otherwise the report holds what was
/// found at each page, in ascending order, and then each frame that was met
/// and whose count is not the number of pages mapped to it.
pub fn check_consistency(addr_space: &AddressSpace, frames: &FrameTable) -> (report: Report)
    requires
        addr_space.wf(),
        frames.wf(),
    ensures
        match report.fatal {
            None => {
                &&& forall|n: nat|
                    n < user_pages() ==> !#[trigger] writable_cow_at(*addr_space, *frames, n)
                &&& report.divergences@ == findings_below(*addr_space, *frames, user_pages())
                    + mismatches_below(
                    *frames,
                    observed_counts(addr_space.table, frames@.len()),
                    frames@.len(),
                )
            },
            Some(v) => {
                &&& (v.page.number as nat) < user_pages()
                &&& addr_space.table.spec_translate(v.page) == Some(v.mapping)
                &&& writable_cow_at(*addr_space, *frames, v.page.number as nat)
                &&& forall|n: nat|
                    n < v.page.number ==> !#[trigger] writable_cow_at(*addr_space, *frames, n)
                &&& report.divergences@ == findings_below(
                    *addr_space,
                    *frames,
                    (v.page.number + 1) as nat,
                )
            },
        },
{
    let mut audit = Audit::new(frames);
    let ghost init = audit;
    audit.walk(addr_space, frames);
    proof {
        let stop = walk_stop(audit.fatal, user_pages());
        assert(audit.divergences@ =~= findings_below(*addr_space, *frames, stop));
        if audit.fatal is None {
            assert forall|f: int| 0 <= f < frames@.len() implies #[trigger] audit.tally@[f]
                == observed_counts(addr_space.table, frames@.len())[f] by {
                lemma_count_bounded(
                    addr_space.table,
                    Frame { number: f as usize },
                    user_pages(),
                );
                assert(init.tally@[f] == 0);
            }
            assert(audit.tally@ =~= observed_counts(addr_space.table, frames@.len()));
        }
    }
    let report = audit.finish(frames);
    proof {
        assert(report.divergences@ =~= findings_below(
            *addr_space,
            *frames,
            walk_stop(report.fatal, user_pages()),
        ) + if report.fatal is None {
            mismatches_below(
                *frames,
                observed_counts(addr_space.table, frames@.len()),
                frames@.len(),
            )
        } else {
            Seq::empty()
        });
    }
    report
}

/// The bytes that a grant spans: its first address, its last, and their number.
#[derive(Clone, Copy, Debug, PartialEq, Eq, Structural)]
pub struct Extent {
    pub start: usize,
    pub last: usize,
    pub size: usize,
}

/// The bytes that the grant spans, if their number and the last address fit
/// the machine's word.
pub open spec fn spec_grant_extent(grant: Grant) -> Option<Extent> {
    if grant.page_count > 0 && grant.page_count * PAGE_SIZE <= usize::MAX && grant.spec_end()
        * PAGE_SIZE - 1 <= usize::MAX {
        Some(
            Extent {
                start: (grant.base.number * PAGE_SIZE) as usize,
                last: (grant.spec_end() * PAGE_SIZE - 1) as usize,
                size: (grant.page_count * PAGE_SIZE) as usize,
            },
        )
    } else {
        None
    }
}

/// The bytes that the grant spans, for the listing of an address space.
pub fn grant_extent(grant: &Grant) -> (r: Option<Extent>)
    ensures
        r == spec_grant_extent(*grant),
{
    if grant.page_count == 0 {
        return None;
    }
    let start: usize = match grant.base.number.checked_mul(PAGE_SIZE) {
        Some(start) => start,
        None => {
            return None;
        },
    };
    let size: usize = match grant.page_count.checked_mul(PAGE_SIZE) {
        Some(size) => size,
        None => {
            return None;
        },
    };
    match start.checked_add(size - 1) {
        Some(last) => Some(Extent { start, last, size }),
        None => None,
    }
}

/// How many words of a stack the debugger shows at most.
pub const STACK_WORDS: usize = 64;

/// Why the debugger shows no more of a stack.
#[derive(Clone, Copy, Debug, PartialEq, Eq, Structural)]
pub enum StackEnd {
    /// It has shown as many words as it shows at most.
    Limit,
    /// The address of the next word does not fit the machine's word.
    Overflow,
    /// The next word lies in a page that is not mapped.
    GuardPage,
}

/// The words of a stack that the debugger shows: their addresses, from the
/// stack pointer up, and why there are no more.
#[derive(Debug)]
pub struct StackDump {
    pub words: Vec<usize>,
    pub end: StackEnd,
}

/// The size of a word of the stack in bytes.
pub open spec fn word_size() -> nat {
    (usize::BITS / 8) as nat
}

/// The address of the `i`-th word of a stack above the stack pointer.
#[verifier::opaque]
pub open spec fn word_address(sp: usize, i: int) -> int {
    sp + i * word_size()
}

/// The words of a stack follow each other at the distance of a word, from the
/// stack pointer on.
pub proof fn lemma_word_address(sp: usize, i: int)
    ensures
        word_address(sp, 0) == sp,
        word_address(sp, i + 1) == word_address(sp, i) + word_size(),
{
    reveal(word_address);
    assert((i + 1) * word_size() == i * word_size() + word_size()) by (nonlinear_arith);
}

/// Whether the page that holds the address is mapped.
pub open spec fn readable(space: AddressSpace, address: int) -> bool {
    0 <= address <= usize::MAX && space.table.spec_translate(
        Page { number: (address / (PAGE_SIZE as int)) as usize },
    ) is Some
}

/// The addresses of the words of a stack that can be read, from the stack
/// pointer up: word after word, until one lies in a page that is not mapped,
/// or its address does not fit, or `STACK_WORDS` words are there.
pub fn stack_dump(addr_space: &AddressSpace, sp: usize) -> (r: StackDump)
    requires
        addr_space.wf(),
    ensures
        r.words@.len() <= STACK_WORDS,
        forall|i: int|
            0 <= i < r.words@.len() ==> #[trigger] r.words@[i] == word_address(sp, i) && readable(
                *addr_space,
                word_address(sp, i),
            ),
        match r.end {
            StackEnd::Limit => r.words@.len() == STACK_WORDS && word_address(
                sp,
                r.words@.len() as int,
            ) <= usize::MAX,
            StackEnd::Overflow => r.words@.len() >= 1 && word_address(sp, r.words@.len() as int)
                > usize::MAX,
            StackEnd::GuardPage => r.words@.len() < STACK_WORDS && !readable(
                *addr_space,
                word_address(sp, r.words@.len() as int),
            ),
        },
{
    let word: usize = (usize::BITS / 8) as usize;
    let mut words: Vec<usize> = Vec::new();
    let mut at: usize = sp;
    proof {
        lemma_word_address(sp, 0);
    }
    while words.len() < STACK_WORDS
        invariant
            addr_space.wf(),
            word == word_size(),
            words@.len() <= STACK_WORDS,
            at == word_address(sp, words@.len() as int),
            forall|i: int|
                0 <= i < words@.len() ==> #[trigger] words@[i] == word_address(sp, i) && readable(
                    *addr_space,
                    word_address(sp, i),
                ),
        decreases STACK_WORDS - words@.len(),
    {
        if addr_space.translate(VirtualAddress::new(at)).is_none() {
            return StackDump { words, end: StackEnd::GuardPage };
        }
        proof {
            lemma_word_address(sp, words@.len() as int);
            assert(readable(*addr_space, at as int));
        }
        let ghost shown = words@;
        words.push(at);
        assert forall|i: int| 0 <= i < words@.len() implies #[trigger] words@[i] == word_address(
            sp,
            i,
        ) && readable(*addr_space, word_address(sp, i)) by {
            if i < shown.len() {
                assert(words@[i] == shown[i]);
            }
        }
        match at.checked_add(word) {
            Some(next) => {
                at = next;
            },
            None => {
                return StackDump { words, end: StackEnd::Overflow };
            },
        }
    }
    StackDump { words, end: StackEnd::Limit }
}

} // verus!
