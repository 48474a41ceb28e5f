//! Physical frames and the table that records who refers to each of them.

use vstd::prelude::*;
use crate::paging::{PhysicalAddress, PAGE_SIZE};

verus! {

/// A physical frame, identified by its number: the address divided by the page size.
#[derive(Clone, Copy, Debug, PartialEq, Eq, Structural, PartialOrd, Ord)]
pub struct Frame {
    pub number: usize,
}

impl Frame {
    pub open spec fn spec_start_address(self) -> nat {
        (self.number as nat) * (PAGE_SIZE as nat)
    }

    pub open spec fn spec_containing_address(address: PhysicalAddress) -> Frame {
        Frame { number: address@ / PAGE_SIZE }
    }

    /// The first address of the frame.
    pub fn start_address(self) -> (r: PhysicalAddress)
        requires
            self.spec_start_address() <= usize::MAX,
        ensures
            r@ == self.spec_start_address(),
    {
        PhysicalAddress::new(self.number * PAGE_SIZE)
    }

    /// The frame that holds the address: the address divided by the page size, rounded down.
    pub fn containing_address(address: PhysicalAddress) -> (r: Frame)
        ensures
            r == Frame::spec_containing_address(address),
            r.spec_start_address() <= address@,
            address@ < r.spec_start_address() + PAGE_SIZE,
    {
        Frame { number: address.data() / PAGE_SIZE }
    }

    /// The frame after this one.
    pub fn next(self) -> (r: Frame)
        requires
            self.number < usize::MAX,
        ensures
            r.number == self.number + 1,
    {
        self.next_by(1)
    }

    /// The frame `n` frames after this one.
    pub fn next_by(self, n: usize) -> (r: Frame)
        requires
            self.number + n <= usize::MAX,
        ensures
            r.number == self.number + n,
    {
        Frame { number: self.number + n }
    }

    /// How many frames this frame lies after `other`.
    pub fn offset_from(self, other: Frame) -> (r: usize)
        requires
            other.number <= self.number,
        ensures
            r == self.number - other.number,
    {
        self.number - other.number
    }
}

/// How many mappings refer to a frame, and under which discipline.
#[derive(Clone, Copy, Debug, PartialEq, Eq, Structural)]
pub enum RefCount {
    /// No grant maps the frame.
    Zero,
    /// Exactly one grant maps the frame.
    One,
    /// That many grants, at least two, share the frame copy-on-write.
    Cow(usize),
    /// That many grants, at least one, share the frame on purpose.
    Shared(usize),
}

/// Why a reference count, or the table that holds it, refused an operation.
#[derive(Clone, Copy, Debug, PartialEq, Eq, Structural)]
pub enum FrameError {
    /// The table does not track the frame.
    Untracked,
    /// One more reference would not fit the counter.
    Overflow,
    /// The frame has no reference left to give up.
    Underflow,
    /// A frame shared copy-on-write cannot become shared on purpose.
    CowToShared,
    /// The frame is not shared copy-on-write.
    NotCow,
    /// The frame that was to take the copy is already referred to.
    InUse,
}

impl RefCount {
    /// `Cow` holds at least two, `Shared` at least one.
    pub open spec fn wf(self) -> bool {
        match self {
            RefCount::Zero => true,
            RefCount::One => true,
            RefCount::Cow(n) => n >= 2,
            RefCount::Shared(n) => n >= 1,
        }
    }

    /// The number of mappings that the value stands for.
    pub open spec fn spec_count(self) -> nat {
        match self {
            RefCount::Zero => 0,
            RefCount::One => 1,
            RefCount::Cow(n) => n as nat,
            RefCount::Shared(n) => n as nat,
        }
    }

    /// The value after one more mapping, shared copy-on-write unless the frame
    /// is shared on purpose.
    pub open spec fn spec_increment(self) -> Result<RefCount, FrameError> {
        match self {
            RefCount::Zero => Ok(RefCount::One),
            RefCount::One => Ok(RefCount::Cow(2)),
            RefCount::Cow(n) => if n < usize::MAX {
                Ok(RefCount::Cow((n + 1) as usize))
            } else {
                Err(FrameError::Overflow)
            },
            RefCount::Shared(n) => if n < usize::MAX {
                Ok(RefCount::Shared((n + 1) as usize))
            } else {
                Err(FrameError::Overflow)
            },
        }
    }

    /// The value after one more mapping that shares the frame on purpose.
    pub open spec fn spec_increment_shared(self) -> Result<RefCount, FrameError> {
        match self {
            RefCount::Zero => Ok(RefCount::Shared(1)),
            RefCount::One => Ok(RefCount::Shared(2)),
            RefCount::Cow(_) => Err(FrameError::CowToShared),
            RefCount::Shared(n) => if n < usize::MAX {
                Ok(RefCount::Shared((n + 1) as usize))
            } else {
                Err(FrameError::Overflow)
            },
        }
    }

    /// The value after one mapping less.
    pub open spec fn spec_decrement(self) -> Result<RefCount, FrameError> {
        match self {
            RefCount::Zero => Err(FrameError::Underflow),
            RefCount::One => Ok(RefCount::Zero),
            RefCount::Cow(n) => if n > 2 {
                Ok(RefCount::Cow((n - 1) as usize))
            } else {
                Ok(RefCount::One)
            },
            RefCount::Shared(n) => if n > 1 {
                Ok(RefCount::Shared((n - 1) as usize))
            } else {
                Ok(RefCount::Zero)
            },
        }
    }

    /// The value after `more` further mappings, each counted as `spec_increment` counts.
    pub open spec fn spec_add(self, more: nat) -> RefCount {
        if more == 0 {
            self
        } else {
            match self {
                RefCount::Shared(n) => RefCount::Shared((n + more) as usize),
                _ => if self.spec_count() + more == 1 {
                    RefCount::One
                } else {
                    RefCount::Cow((self.spec_count() + more) as usize)
                },
            }
        }
    }

    /// The value after `fewer` mappings less, each counted as `spec_decrement` counts.
    pub open spec fn spec_sub(self, fewer: nat) -> RefCount {
        if fewer == 0 {
            self
        } else if self.spec_count() <= fewer {
            RefCount::Zero
        } else {
            match self {
                RefCount::Shared(n) => RefCount::Shared((n - fewer) as usize),
                _ => if self.spec_count() - fewer == 1 {
                    RefCount::One
                } else {
                    RefCount::Cow((self.spec_count() - fewer) as usize)
                },
            }
        }
    }

    /// A copy-on-write count of `n`, which must be at least two.
    pub fn cow(n: usize) -> (r: Option<RefCount>)
        ensures
            r == if n >= 2 {
                Some(RefCount::Cow(n))
            } else {
                None
            },
    {
        if n >= 2 {
            Some(RefCount::Cow(n))
        } else {
            None
        }
    }

    /// A shared count of `n`, which must be at least one.
    pub fn shared(n: usize) -> (r: Option<RefCount>)
        ensures
            r == if n >= 1 {
                Some(RefCount::Shared(n))
            } else {
                None
            },
    {
        if n >= 1 {
            Some(RefCount::Shared(n))
        } else {
            None
        }
    }

    /// Whether `Cow` holds at least two and `Shared` at least one.
    pub fn is_well_formed(&self) -> (r: bool)
        ensures
            r == self.wf(),
    {
        match self {
            RefCount::Cow(n) => *n >= 2,
            RefCount::Shared(n) => *n >= 1,
            _ => true,
        }
    }

    /// The number of mappings that the value stands for.
    pub fn count(&self) -> (r: usize)
        ensures
            r == self.spec_count(),
    {
        match self {
            RefCount::Zero => 0,
            RefCount::One => 1,
            RefCount::Cow(n) => *n,
            RefCount::Shared(n) => *n,
        }
    }

    pub fn is_cow(&self) -> (r: bool)
        ensures
            r == (*self is Cow),
    {
        match self {
            RefCount::Cow(_) => true,
            _ => false,
        }
    }

    pub fn is_shared(&self) -> (r: bool)
        ensures
            r == (*self is Shared),
    {
        match self {
            RefCount::Shared(_) => true,
            _ => false,
        }
    }

    /// Counts one more mapping.
    pub fn increment(self) -> (r: Result<RefCount, FrameError>)
        requires
            self.wf(),
        ensures
            r == self.spec_increment(),
            r matches Ok(next) ==> next.wf() && next.spec_count() == self.spec_count() + 1,
    {
        match self {
            RefCount::Zero => Ok(RefCount::One),
            RefCount::One => Ok(RefCount::Cow(2)),
            RefCount::Cow(n) => if n < usize::MAX {
                Ok(RefCount::Cow(n + 1))
            } else {
                Err(FrameError::Overflow)
            },
            RefCount::Shared(n) => if n < usize::MAX {
                Ok(RefCount::Shared(n + 1))
            } else {
                Err(FrameError::Overflow)
            },
        }
    }

    /// Counts one more mapping that shares the frame on purpose.
    pub fn increment_shared(self) -> (r: Result<RefCount, FrameError>)
        requires
            self.wf(),
        ensures
            r == self.spec_increment_shared(),
            r matches Ok(next) ==> next.wf() && next is Shared && next.spec_count()
                == self.spec_count() + 1,
    {
        match self {
            RefCount::Zero => Ok(RefCount::Shared(1)),
            RefCount::One => Ok(RefCount::Shared(2)),
            RefCount::Cow(_) => Err(FrameError::CowToShared),
            RefCount::Shared(n) => if n < usize::MAX {
                Ok(RefCount::Shared(n + 1))
            } else {
                Err(FrameError::Overflow)
            },
        }
    }

    /// Counts one mapping less.
    pub fn decrement(self) -> (r: Result<RefCount, FrameError>)
        requires
            self.wf(),
        ensures
            r == self.spec_decrement(),
            r matches Ok(next) ==> next.wf() && next.spec_count() + 1 == self.spec_count(),
            r is Err <==> self is Zero,
    {
        match self {
            RefCount::Zero => Err(FrameError::Underflow),
            RefCount::One => Ok(RefCount::Zero),
            RefCount::Cow(n) => if n > 2 {
                Ok(RefCount::Cow(n - 1))
            } else {
                Ok(RefCount::One)
            },
            RefCount::Shared(n) => if n > 1 {
                Ok(RefCount::Shared(n - 1))
            } else {
                Ok(RefCount::Zero)
            },
        }
    }

    /// From `Zero`, one increment gives `One` and a second gives `Cow(2)`; from there
    /// one decrement gives `One`, a second gives `Zero`, and a third fails.
    pub proof fn lemma_life_cycle()
        ensures
            RefCount::Zero.spec_increment() == Ok::<RefCount, FrameError>(RefCount::One),
            RefCount::One.spec_increment() == Ok::<RefCount, FrameError>(RefCount::Cow(2)),
            RefCount::Cow(2).spec_decrement() == Ok::<RefCount, FrameError>(RefCount::One),
            RefCount::One.spec_decrement() == Ok::<RefCount, FrameError>(RefCount::Zero),
            RefCount::Zero.spec_decrement() is Err,
    {
    }

    /// Counting one more mapping after `more` others gives what counting
    /// `more + 1` gives, as long as the counter holds them; the count stays
    /// shared on purpose exactly if it was.
    pub proof fn lemma_add_then_increment(count: RefCount, more: nat)
        requires
            count.wf(),
            count.spec_count() + more <= usize::MAX,
        ensures
            count.spec_add(more).wf(),
            count.spec_add(more).spec_count() == count.spec_count() + more,
            count.spec_add(more) is Shared <==> count is Shared,
            count.spec_add(more).spec_increment() == if count.spec_count() + more < usize::MAX {
                Ok::<RefCount, FrameError>(count.spec_add(more + 1))
            } else {
                Err::<RefCount, FrameError>(FrameError::Overflow)
            },
    {
    }

    /// Counting one mapping less after `fewer` others gives what counting
    /// `fewer + 1` less gives, as long as the count holds them.
    pub proof fn lemma_sub_then_decrement(count: RefCount, fewer: nat)
        requires
            count.wf(),
            fewer <= count.spec_count(),
        ensures
            count.spec_sub(fewer).wf(),
            count.spec_sub(fewer).spec_count() == count.spec_count() - fewer,
            count.spec_sub(fewer).spec_decrement() == if fewer < count.spec_count() {
                Ok::<RefCount, FrameError>(count.spec_sub(fewer + 1))
            } else {
                Err::<RefCount, FrameError>(FrameError::Underflow)
            },
    {
    }

    /// A decrement undoes an increment, and fails on no value but `Zero`.
    pub proof fn lemma_decrement_undoes_increment(count: RefCount)
        requires
            count.wf(),
        ensures
            count.spec_increment() matches Ok(next) ==> next.spec_decrement() == Ok::<
                RefCount,
                FrameError,
            >(count),
            count.spec_decrement() is Err <==> count is Zero,
    {
    }
}

/// The reference count of every frame from number zero up to the table's length.
/// A frame beyond that is not tracked and reads as `Zero`. The view is the
/// sequence of counts, by frame number.
#[derive(Debug)]
pub struct FrameTable {
    pub counts: Vec<RefCount>,
}

impl View for FrameTable {
    type V = Seq<RefCount>;

    open spec fn view(&self) -> Seq<RefCount> {
        self.counts@
    }
}

impl FrameTable {
    /// Every count that the table holds is well-formed.
    pub open spec fn wf(&self) -> bool {
        forall|i: int| 0 <= i < self@.len() ==> (#[trigger] self@[i]).wf()
    }

    pub open spec fn tracks(&self, frame: Frame) -> bool {
        frame.number < self@.len()
    }

    /// The recorded count of a frame: `Zero` where the table does not track it.
    pub open spec fn spec_refcount(&self, frame: Frame) -> RefCount {
        if self.tracks(frame) {
            self@[frame.number as int]
        } else {
            RefCount::Zero
        }
    }

    /// What an operation on a frame's count returns: the outcome of the step on
    /// the count, for a frame that is tracked.
    pub open spec fn outcome(&self, frame: Frame, step: Result<RefCount, FrameError>) -> Result<
        RefCount,
        FrameError,
    > {
        if self.tracks(frame) {
            step
        } else {
            Err(FrameError::Untracked)
        }
    }

    /// The counts after an operation on a frame's count: the frame has the new
    /// count where the step succeeded, and nothing has changed where it failed.
    pub open spec fn updated(&self, frame: Frame, step: Result<RefCount, FrameError>) -> Seq<
        RefCount,
    > {
        match self.outcome(frame, step) {
            Ok(next) => self@.update(frame.number as int, next),
            Err(_) => self@,
        }
    }

    /// What resolving a write fault on `shared` with the copy going to `fresh`
    /// returns: the count that `shared` is left with.
    pub open spec fn spec_resolve_cow(&self, shared: Frame, fresh: Frame) -> Result<
        RefCount,
        FrameError,
    > {
        if !self.tracks(shared) || !self.tracks(fresh) {
            Err(FrameError::Untracked)
        } else if !(self.spec_refcount(shared) is Cow) {
            Err(FrameError::NotCow)
        } else if !(self.spec_refcount(fresh) is Zero) {
            Err(FrameError::InUse)
        } else {
            self.spec_refcount(shared).spec_decrement()
        }
    }

    /// A table that tracks the frames below `frames`, each at `Zero`.
    pub fn new(frames: usize) -> (r: FrameTable)
        ensures
            r.wf(),
            r@ == Seq::new(frames as nat, |i: int| RefCount::Zero),
    {
        let mut counts: Vec<RefCount> = Vec::new();
        let mut i: usize = 0;
        while i < frames
            invariant
                i <= frames,
                counts@ == Seq::new(i as nat, |i: int| RefCount::Zero),
            decreases frames - i,
        {
            counts.push(RefCount::Zero);
            i = i + 1;
            assert(counts@ =~= Seq::new(i as nat, |i: int| RefCount::Zero));
        }
        FrameTable { counts }
    }

    /// Whether every count that the table holds is well-formed.
    pub fn is_well_formed(&self) -> (r: bool)
        ensures
            r == self.wf(),
    {
        let mut i: usize = 0;
        while i < self.counts.len()
            invariant
                i <= self@.len(),
                forall|k: int| 0 <= k < i ==> (#[trigger] self@[k]).wf(),
            decreases self@.len() - i,
        {
            if !self.counts[i].is_well_formed() {
                return false;
            }
            i = i + 1;
        }
        true
    }

    /// The number of frames that the table tracks.
    pub fn len(&self) -> (r: usize)
        ensures
            r == self@.len(),
    {
        self.counts.len()
    }

    pub fn is_tracked(&self, frame: Frame) -> (r: bool)
        ensures
            r == self.tracks(frame),
    {
        frame.number < self.counts.len()
    }

    /// The recorded count of a frame: `Zero` where the table does not track it.
    pub fn refcount(&self, frame: Frame) -> (r: RefCount)
        ensures
            r == self.spec_refcount(frame),
    {
        if frame.number < self.counts.len() {
            self.counts[frame.number]
        } else {
            RefCount::Zero
        }
    }

    /// Records one more mapping of the frame.
    pub fn increment(&mut self, frame: Frame) -> (r: Result<RefCount, FrameError>)
        requires
            old(self).wf(),
        ensures
            final(self).wf(),
            r == old(self).outcome(frame, old(self).spec_refcount(frame).spec_increment()),
            final(self)@ == old(self).updated(
                frame,
                old(self).spec_refcount(frame).spec_increment(),
            ),
    {
        if frame.number >= self.counts.len() {
            return Err(FrameError::Untracked);
        }
        let step = self.counts[frame.number].increment();
        if let Ok(next) = step {
            self.counts[frame.number] = next;
        }
        step
    }

    /// Records one more mapping of the frame that shares it on purpose.
    pub fn increment_shared(&mut self, frame: Frame) -> (r: Result<RefCount, FrameError>)
        requires
            old(self).wf(),
        ensures
            final(self).wf(),
            r == old(self).outcome(frame, old(self).spec_refcount(frame).spec_increment_shared()),
            final(self)@ == old(self).updated(
                frame,
                old(self).spec_refcount(frame).spec_increment_shared(),
            ),
    {
        if frame.number >= self.counts.len() {
            return Err(FrameError::Untracked);
        }
        let step = self.counts[frame.number].increment_shared();
        if let Ok(next) = step {
            self.counts[frame.number] = next;
        }
        step
    }

    /// Records one mapping less of the frame.
    pub fn decrement(&mut self, frame: Frame) -> (r: Result<RefCount, FrameError>)
        requires
            old(self).wf(),
        ensures
            final(self).wf(),
            r == old(self).outcome(frame, old(self).spec_refcount(frame).spec_decrement()),
            final(self)@ == old(self).updated(
                frame,
                old(self).spec_refcount(frame).spec_decrement(),
            ),
    {
        if frame.number >= self.counts.len() {
            return Err(FrameError::Untracked);
        }
        let step = self.counts[frame.number].decrement();
        if let Ok(next) = step {
            self.counts[frame.number] = next;
        }
        step
    }

    /// Resolves a write fault on a frame that is shared copy-on-write: `fresh`,
    /// which nothing refers to yet, becomes the one frame of the writer, and
    /// `shared` loses one reference. Returns the count that `shared` is left with.
    pub fn resolve_cow(&mut self, shared: Frame, fresh: Frame) -> (r: Result<
        RefCount,
        FrameError,
    >)
        requires
            old(self).wf(),
        ensures
            final(self).wf(),
            r == old(self).spec_resolve_cow(shared, fresh),
            match r {
                Ok(left) => {
                    &&& old(self).spec_refcount(shared) matches RefCount::Cow(n)
                    &&& left == if n > 2 {
                        RefCount::Cow((n - 1) as usize)
                    } else {
                        RefCount::One
                    }
                    &&& final(self)@ == old(self)@.update(shared.number as int, left).update(
                        fresh.number as int,
                        RefCount::One,
                    )
                    &&& final(self).spec_refcount(shared) == left
                    &&& final(self).spec_refcount(fresh) == RefCount::One
                },
                Err(_) => final(self)@ == old(self)@,
            },
    {
        if shared.number >= self.counts.len() || fresh.number >= self.counts.len() {
            return Err(FrameError::Untracked);
        }
        let count = self.counts[shared.number];
        if !count.is_cow() {
            return Err(FrameError::NotCow);
        }
        match self.counts[fresh.number] {
            RefCount::Zero => {},
            _ => {
                return Err(FrameError::InUse);
            },
        }
        let step = count.decrement();
        if let Ok(left) = step {
            self.counts[shared.number] = left;
            self.counts[fresh.number] = RefCount::One;
        }
        step
    }
}

} // verus!
