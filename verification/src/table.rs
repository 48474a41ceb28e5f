//! The page table: four levels of 512 entries, walked by the four indices of a page.

use vstd::prelude::*;
use crate::flags::PageFlags;
use crate::frame::Frame;
use crate::paging::{Page, ENTRY_COUNT};

verus! {

/// What a page is mapped to: a frame, and the flags of the mapping.
#[derive(Clone, Copy, Debug, PartialEq, Eq, Structural)]
pub struct Mapping {
    pub frame: Frame,
    pub flags: PageFlags,
}

/// Why the page table refused an operation.
#[derive(Clone, Copy, Debug, PartialEq, Eq, Structural)]
pub enum TableError {
    /// The page lies beyond what four levels can address.
    NotAddressable,
}

/// Whether two pages have the same level 1 index.
pub open spec fn same_p1(a: Page, b: Page) -> bool {
    a.spec_p1_index() == b.spec_p1_index()
}

/// Whether two pages have the same indices from level 2 down.
pub open spec fn same_p2(a: Page, b: Page) -> bool {
    a.spec_p2_index() == b.spec_p2_index() && same_p1(a, b)
}

/// Whether two pages have the same indices from level 3 down.
pub open spec fn same_p3(a: Page, b: Page) -> bool {
    a.spec_p3_index() == b.spec_p3_index() && same_p2(a, b)
}

/// Whether two pages have the same four indices.
pub open spec fn same_p4(a: Page, b: Page) -> bool {
    a.spec_p4_index() == b.spec_p4_index() && same_p3(a, b)
}

/// A leaf table: each entry is empty or maps a page.
#[derive(Debug)]
pub struct Level1 {
    pub entries: Vec<Option<Mapping>>,
}

/// A level 2 table: each entry is empty or leads to a leaf table.
#[derive(Debug)]
pub struct Level2 {
    pub entries: Vec<Option<Level1>>,
}

/// A level 3 table: each entry is empty or leads to a level 2 table.
#[derive(Debug)]
pub struct Level3 {
    pub entries: Vec<Option<Level2>>,
}

/// The root of the four levels. The view is the map from each mapped page
/// to what it is mapped to.
#[derive(Debug)]
pub struct PageTable {
    pub entries: Vec<Option<Level3>>,
}

impl Level1 {
    pub open spec fn wf(&self) -> bool {
        self.entries@.len() == ENTRY_COUNT
    }

    /// What the walk of the page finds from here on.
    pub open spec fn spec_entry(&self, page: Page) -> Option<Mapping> {
        self.entries@[page.spec_p1_index() as int]
    }

    /// A table of empty entries.
    pub fn new() -> (r: Level1)
        ensures
            r.wf(),
            forall|i: int| 0 <= i < ENTRY_COUNT ==> (#[trigger] r.entries@[i]) is None,
    {
        let mut entries: Vec<Option<Mapping>> = Vec::new();
        let mut i: usize = 0;
        while i < ENTRY_COUNT
            invariant
                i <= ENTRY_COUNT,
                entries@.len() == i,
                forall|k: int| 0 <= k < i ==> (#[trigger] entries@[k]) is None,
            decreases ENTRY_COUNT - i,
        {
            entries.push(None);
            i = i + 1;
        }
        Level1 { entries }
    }

    /// Whether the table has its 512 entries.
    pub fn is_well_formed(&self) -> (r: bool)
        ensures
            r == self.wf(),
    {
        self.entries.len() == ENTRY_COUNT
    }

    /// The mapping at an index.
    pub fn entry(&self, index: usize) -> (r: Option<Mapping>)
        requires
            self.wf(),
            index < ENTRY_COUNT,
        ensures
            r == self.entries@[index as int],
    {
        self.entries[index]
    }

    /// Puts `value` where the walk of the page ends; returns what was there.
    fn replace(&mut self, page: Page, value: Option<Mapping>) -> (r: Option<Mapping>)
        requires
            old(self).wf(),
        ensures
            final(self).wf(),
            r == old(self).spec_entry(page),
            forall|q: Page| #[trigger]
                final(self).spec_entry(q) == if same_p1(q, page) {
                    value
                } else {
                    old(self).spec_entry(q)
                },
    {
        let i: usize = page.p1_index();
        let before = self.entries[i];
        self.entries[i] = value;
        before
    }
}

impl Level2 {
    pub open spec fn wf(&self) -> bool {
        &&& self.entries@.len() == ENTRY_COUNT
        &&& forall|i: int|
            0 <= i < ENTRY_COUNT ==> ((#[trigger] self.entries@[i]) matches Some(t) ==> t.wf())
    }

    /// What the walk of the page finds from here on.
    pub open spec fn spec_entry(&self, page: Page) -> Option<Mapping> {
        match self.entries@[page.spec_p2_index() as int] {
            Some(t) => t.spec_entry(page),
            None => None,
        }
    }

    /// A table of empty entries.
    pub fn new() -> (r: Level2)
        ensures
            r.wf(),
            forall|i: int| 0 <= i < ENTRY_COUNT ==> (#[trigger] r.entries@[i]) is None,
    {
        let mut entries: Vec<Option<Level1>> = Vec::new();
        let mut i: usize = 0;
        while i < ENTRY_COUNT
            invariant
                i <= ENTRY_COUNT,
                entries@.len() == i,
                forall|k: int| 0 <= k < i ==> (#[trigger] entries@[k]) is None,
            decreases ENTRY_COUNT - i,
        {
            entries.push(None);
            i = i + 1;
        }
        Level2 { entries }
    }

    /// Whether the table and every table below it have their 512 entries.
    pub fn is_well_formed(&self) -> (r: bool)
        ensures
            r == self.wf(),
    {
        if self.entries.len() != ENTRY_COUNT {
            return false;
        }
        let mut i: usize = 0;
        while i < ENTRY_COUNT
            invariant
                i <= ENTRY_COUNT,
                self.entries@.len() == ENTRY_COUNT,
                forall|k: int|
                    0 <= k < i ==> ((#[trigger] self.entries@[k]) matches Some(t) ==> t.wf()),
            decreases ENTRY_COUNT - i,
        {
            if let Some(below) = &self.entries[i] {
                if !below.is_well_formed() {
                    return false;
                }
            }
            i = i + 1;
        }
        true
    }

    /// The leaf table at an index.
    pub fn next(&self, index: usize) -> (r: Option<&Level1>)
        requires
            self.wf(),
            index < ENTRY_COUNT,
        ensures
            match r {
                Some(t) => self.entries@[index as int] == Some(*t) && t.wf(),
                None => self.entries@[index as int] is None,
            },
    {
        self.entries[index].as_ref()
    }

    /// Puts `value` where the walk of the page ends; returns what was there.
    fn replace(&mut self, page: Page, value: Option<Mapping>) -> (r: Option<Mapping>)
        requires
            old(self).wf(),
        ensures
            final(self).wf(),
            r == old(self).spec_entry(page),
            forall|q: Page| #[trigger]
                final(self).spec_entry(q) == if same_p2(q, page) {
                    value
                } else {
                    old(self).spec_entry(q)
                },
    {
        let i: usize = page.p2_index();
        match &mut self.entries[i] {
            Some(t) => t.replace(page, value),
            None => {
                if value.is_some() {
                    let mut t = Level1::new();
                    t.replace(page, value);
                    self.entries[i] = Some(t);
                }
                None
            },
        }
    }
}

impl Level3 {
    pub open spec fn wf(&self) -> bool {
        &&& self.entries@.len() == ENTRY_COUNT
        &&& forall|i: int|
            0 <= i < ENTRY_COUNT ==> ((#[trigger] self.entries@[i]) matches Some(t) ==> t.wf())
    }

    /// What the walk of the page finds from here on.
    pub open spec fn spec_entry(&self, page: Page) -> Option<Mapping> {
        match self.entries@[page.spec_p3_index() as int] {
            Some(t) => t.spec_entry(page),
            None => None,
        }
    }

    /// A table of empty entries.
    pub fn new() -> (r: Level3)
        ensures
            r.wf(),
            forall|i: int| 0 <= i < ENTRY_COUNT ==> (#[trigger] r.entries@[i]) is None,
    {
        let mut entries: Vec<Option<Level2>> = Vec::new();
        let mut i: usize = 0;
        while i < ENTRY_COUNT
            invariant
                i <= ENTRY_COUNT,
                entries@.len() == i,
                forall|k: int| 0 <= k < i ==> (#[trigger] entries@[k]) is None,
            decreases ENTRY_COUNT - i,
        {
            entries.push(None);
            i = i + 1;
        }
        Level3 { entries }
    }

    /// Whether the table and every table below it have their 512 entries.
    pub fn is_well_formed(&self) -> (r: bool)
        ensures
            r == self.wf(),
    {
        if self.entries.len() != ENTRY_COUNT {
            return false;
        }
        let mut i: usize = 0;
        while i < ENTRY_COUNT
            invariant
                i <= ENTRY_COUNT,
                self.entries@.len() == ENTRY_COUNT,
                forall|k: int|
                    0 <= k < i ==> ((#[trigger] self.entries@[k]) matches Some(t) ==> t.wf()),
            decreases ENTRY_COUNT - i,
        {
            if let Some(below) = &self.entries[i] {
                if !below.is_well_formed() {
                    return false;
                }
            }
            i = i + 1;
        }
        true
    }

    /// The level 2 table at an index.
    pub fn next(&self, index: usize) -> (r: Option<&Level2>)
        requires
            self.wf(),
            index < ENTRY_COUNT,
        ensures
            match r {
                Some(t) => self.entries@[index as int] == Some(*t) && t.wf(),
                None => self.entries@[index as int] is None,
            },
    {
        self.entries[index].as_ref()
    }

    /// Puts `value` where the walk of the page ends; returns what was there.
    fn replace(&mut self, page: Page, value: Option<Mapping>) -> (r: Option<Mapping>)
        requires
            old(self).wf(),
        ensures
            final(self).wf(),
            r == old(self).spec_entry(page),
            forall|q: Page| #[trigger]
                final(self).spec_entry(q) == if same_p3(q, page) {
                    value
                } else {
                    old(self).spec_entry(q)
                },
    {
        let i: usize = page.p3_index();
        match &mut self.entries[i] {
            Some(t) => t.replace(page, value),
            None => {
                if value.is_some() {
                    let mut t = Level2::new();
                    t.replace(page, value);
                    self.entries[i] = Some(t);
                }
                None
            },
        }
    }
}

impl View for PageTable {
    type V = Map<Page, Mapping>;

    open spec fn view(&self) -> Map<Page, Mapping> {
        Map::new(|page: Page| self.spec_translate(page) is Some, |page: Page| self.spec_translate(page)->Some_0)
    }
}

impl PageTable {
    pub open spec fn wf(&self) -> bool {
        &&& self.entries@.len() == ENTRY_COUNT
        &&& forall|i: int|
            0 <= i < ENTRY_COUNT ==> ((#[trigger] self.entries@[i]) matches Some(t) ==> t.wf())
    }

    /// What the page is mapped to: what the walk by its four indices finds,
    /// and nothing for a page that the four levels cannot address.
    pub open spec fn spec_translate(&self, page: Page) -> Option<Mapping> {
        if page.addressable() {
            match self.entries@[page.spec_p4_index() as int] {
                Some(t) => t.spec_entry(page),
                None => None,
            }
        } else {
            None
        }
    }

    /// A table that maps no page.
    pub fn new() -> (r: PageTable)
        ensures
            r.wf(),
            forall|i: int| 0 <= i < ENTRY_COUNT ==> (#[trigger] r.entries@[i]) is None,
            forall|page: Page| (#[trigger] r.spec_translate(page)) is None,
            r@ == Map::<Page, Mapping>::empty(),
    {
        let mut entries: Vec<Option<Level3>> = Vec::new();
        let mut i: usize = 0;
        while i < ENTRY_COUNT
            invariant
                i <= ENTRY_COUNT,
                entries@.len() == i,
                forall|k: int| 0 <= k < i ==> (#[trigger] entries@[k]) is None,
            decreases ENTRY_COUNT - i,
        {
            entries.push(None);
            i = i + 1;
        }
        let table = PageTable { entries };
        assert(table@ =~= Map::<Page, Mapping>::empty());
        table
    }

    /// Whether the table and every table below it have their 512 entries.
    pub fn is_well_formed(&self) -> (r: bool)
        ensures
            r == self.wf(),
    {
        if self.entries.len() != ENTRY_COUNT {
            return false;
        }
        let mut i: usize = 0;
        while i < ENTRY_COUNT
            invariant
                i <= ENTRY_COUNT,
                self.entries@.len() == ENTRY_COUNT,
                forall|k: int|
                    0 <= k < i ==> ((#[trigger] self.entries@[k]) matches Some(t) ==> t.wf()),
            decreases ENTRY_COUNT - i,
        {
            if let Some(below) = &self.entries[i] {
                if !below.is_well_formed() {
                    return false;
                }
            }
            i = i + 1;
        }
        true
    }

    /// The level 3 table at an index.
    pub fn next(&self, index: usize) -> (r: Option<&Level3>)
        requires
            self.wf(),
            index < ENTRY_COUNT,
        ensures
            match r {
                Some(t) => self.entries@[index as int] == Some(*t) && t.wf(),
                None => self.entries@[index as int] is None,
            },
    {
        self.entries[index].as_ref()
    }

    /// What the page is mapped to, if it is mapped.
    pub fn translate(&self, page: Page) -> (r: Option<Mapping>)
        requires
            self.wf(),
        ensures
            r == self.spec_translate(page),
            r == if self@.contains_key(page) {
                Some(self@[page])
            } else {
                None
            },
    {
        if !page.is_addressable() {
            return None;
        }
        let level3 = match self.next(page.p4_index()) {
            Some(t) => t,
            None => {
                return None;
            },
        };
        let level2 = match level3.next(page.p3_index()) {
            Some(t) => t,
            None => {
                return None;
            },
        };
        let leaf = match level2.next(page.p2_index()) {
            Some(t) => t,
            None => {
                return None;
            },
        };
        leaf.entry(page.p1_index())
    }

    /// Puts `value` where the walk of an addressable page ends; returns what was there.
    fn replace(&mut self, page: Page, value: Option<Mapping>) -> (r: Option<Mapping>)
        requires
            old(self).wf(),
            page.addressable(),
        ensures
            final(self).wf(),
            r == old(self).spec_translate(page),
            forall|q: Page| #[trigger]
                final(self).spec_translate(q) == if q == page {
                    value
                } else {
                    old(self).spec_translate(q)
                },
    {
        let i: usize = page.p4_index();
        let before = match &mut self.entries[i] {
            Some(t) => t.replace(page, value),
            None => {
                if value.is_some() {
                    let mut t = Level3::new();
                    t.replace(page, value);
                    self.entries[i] = Some(t);
                }
                None
            },
        };
        proof {
            assert forall|q: Page| q.addressable() && same_p4(q, page) implies q == page by {
                Page::lemma_indices_round_trip(q);
                Page::lemma_indices_round_trip(page);
            }
        }
        before
    }

    /// Maps the page to the frame with the flags, in place of what it was
    /// mapped to, which is returned.
    pub fn map(&mut self, page: Page, frame: Frame, flags: PageFlags) -> (r: Result<
        Option<Mapping>,
        TableError,
    >)
        requires
            old(self).wf(),
        ensures
            final(self).wf(),
            match r {
                Ok(before) => {
                    &&& page.addressable()
                    &&& before == old(self).spec_translate(page)
                    &&& final(self)@ == old(self)@.insert(page, Mapping { frame, flags })
                    &&& forall|q: Page| #[trigger]
                        final(self).spec_translate(q) == if q == page {
                            Some(Mapping { frame, flags })
                        } else {
                            old(self).spec_translate(q)
                        }
                },
                Err(e) => {
                    &&& e == TableError::NotAddressable
                    &&& !page.addressable()
                    &&& *final(self) == *old(self)
                },
            },
    {
        if !page.is_addressable() {
            return Err(TableError::NotAddressable);
        }
        let before = self.replace(page, Some(Mapping { frame, flags }));
        assert(self@ =~= old(self)@.insert(page, Mapping { frame, flags }));
        Ok(before)
    }

    /// Takes the mapping of the page out and returns it, if the page is mapped.
    pub fn unmap(&mut self, page: Page) -> (r: Option<Mapping>)
        requires
            old(self).wf(),
        ensures
            final(self).wf(),
            r == old(self).spec_translate(page),
            final(self)@ == old(self)@.remove(page),
            forall|q: Page| #[trigger]
                final(self).spec_translate(q) == if q == page {
                    None
                } else {
                    old(self).spec_translate(q)
                },
    {
        if !page.is_addressable() {
            assert(self@ =~= old(self)@.remove(page));
            return None;
        }
        let before = self.replace(page, None);
        assert(self@ =~= old(self)@.remove(page));
        before
    }

    /// Gives the mapping of the page other flags and returns the flags that it
    /// had, if the page is mapped.
    pub fn remap(&mut self, page: Page, flags: PageFlags) -> (r: Option<PageFlags>)
        requires
            old(self).wf(),
        ensures
            final(self).wf(),
            match old(self).spec_translate(page) {
                Some(before) => {
                    &&& r == Some(before.flags)
                    &&& final(self)@ == old(self)@.insert(
                        page,
                        Mapping { frame: before.frame, flags },
                    )
                    &&& forall|q: Page| #[trigger]
                        final(self).spec_translate(q) == if q == page {
                            Some(Mapping { frame: before.frame, flags })
                        } else {
                            old(self).spec_translate(q)
                        }
                },
                None => r is None && *final(self) == *old(self),
            },
    {
        match self.translate(page) {
            Some(before) => {
                let m = Mapping { frame: before.frame, flags };
                self.replace(page, Some(m));
                assert(self@ =~= old(self)@.insert(page, m));
                Some(before.flags)
            },
            None => None,
        }
    }
}

} // verus!
