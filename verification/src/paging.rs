//! Page-granular addressing: addresses, pages, their four table indices,
//! page ranges and page-size rounding.

use vstd::prelude::*;

verus! {

/// Size of a page in bytes.
pub const PAGE_SIZE: usize = 4096;

/// Number of entries in one level of the page table.
pub const ENTRY_COUNT: usize = 512;

/// Number of pages that four levels of `ENTRY_COUNT` entries can address.
pub open spec fn addressable_pages() -> nat {
    0x10_0000_0000
}

/// A virtual address. Its view is the address as a number.
#[derive(Clone, Copy, Debug, PartialEq, Eq, Structural, PartialOrd, Ord)]
pub struct VirtualAddress {
    data: usize,
}

impl View for VirtualAddress {
    type V = usize;

    closed spec fn view(&self) -> usize {
        self.data
    }
}

impl VirtualAddress {
    pub fn new(address: usize) -> (r: VirtualAddress)
        ensures
            r@ == address,
    {
        VirtualAddress { data: address }
    }

    pub fn data(&self) -> (r: usize)
        ensures
            r == self@,
    {
        self.data
    }
}

/// A physical address. Its view is the address as a number.
#[derive(Clone, Copy, Debug, PartialEq, Eq, Structural, PartialOrd, Ord)]
pub struct PhysicalAddress {
    data: usize,
}

impl View for PhysicalAddress {
    type V = usize;

    closed spec fn view(&self) -> usize {
        self.data
    }
}

impl PhysicalAddress {
    pub fn new(address: usize) -> (r: PhysicalAddress)
        ensures
            r@ == address,
    {
        PhysicalAddress { data: address }
    }

    pub fn data(&self) -> (r: usize)
        ensures
            r == self@,
    {
        self.data
    }
}

/// A virtual page, identified by its number: the address divided by the page size.
#[derive(Clone, Copy, Debug, PartialEq, Eq, Structural, PartialOrd, Ord)]
pub struct Page {
    pub number: usize,
}

impl Page {
    /// Whether the page lies within what the four table levels can address.
    pub open spec fn addressable(self) -> bool {
        self.number < addressable_pages()
    }

    pub open spec fn spec_p4_index(self) -> nat {
        ((self.number as nat) / 0x800_0000) % 512
    }

    pub open spec fn spec_p3_index(self) -> nat {
        ((self.number as nat) / 0x4_0000) % 512
    }

    pub open spec fn spec_p2_index(self) -> nat {
        ((self.number as nat) / 0x200) % 512
    }

    pub open spec fn spec_p1_index(self) -> nat {
        (self.number as nat) % 512
    }

    /// The page number that four table indices, from the root down, stand for.
    pub open spec fn number_of_indices(i4: nat, i3: nat, i2: nat, i1: nat) -> nat {
        i4 * 0x800_0000 + i3 * 0x4_0000 + i2 * 0x200 + i1
    }

    pub open spec fn spec_start_address(self) -> nat {
        (self.number as nat) * (PAGE_SIZE as nat)
    }

    pub open spec fn spec_containing_address(address: VirtualAddress) -> Page {
        Page { number: address@ / PAGE_SIZE }
    }

    /// The first address of the page.
    pub fn start_address(self) -> (r: VirtualAddress)
        requires
            self.spec_start_address() <= usize::MAX,
        ensures
            r@ == self.spec_start_address(),
    {
        VirtualAddress::new(self.number * PAGE_SIZE)
    }

    /// Index into the root (level 4) table.
    pub fn p4_index(self) -> (r: usize)
        ensures
            r == self.spec_p4_index(),
            r < ENTRY_COUNT,
    {
        let n: usize = self.number;
        assert((n >> 27) & 0o777 == (n / 0x800_0000) % 512) by (bit_vector);
        (n >> 27) & 0o777
    }

    /// Index into the level 3 table.
    pub fn p3_index(self) -> (r: usize)
        ensures
            r == self.spec_p3_index(),
            r < ENTRY_COUNT,
    {
        let n: usize = self.number;
        assert((n >> 18) & 0o777 == (n / 0x4_0000) % 512) by (bit_vector);
        (n >> 18) & 0o777
    }

    /// Index into the level 2 table.
    pub fn p2_index(self) -> (r: usize)
        ensures
            r == self.spec_p2_index(),
            r < ENTRY_COUNT,
    {
        let n: usize = self.number;
        assert((n >> 9) & 0o777 == (n / 0x200) % 512) by (bit_vector);
        (n >> 9) & 0o777
    }

    /// Index into the level 1 (leaf) table.
    pub fn p1_index(self) -> (r: usize)
        ensures
            r == self.spec_p1_index(),
            r < ENTRY_COUNT,
    {
        let n: usize = self.number;
        assert(n & 0o777 == n % 512) by (bit_vector);
        n & 0o777
    }

    /// Whether the four table levels can address the page.
    pub fn is_addressable(self) -> (r: bool)
        ensures
            r == self.addressable(),
    {
        let n: usize = self.number;
        assert(((n >> 27) >> 9 == 0) <==> n < 0x10_0000_0000) by (bit_vector);
        (n >> 27) >> 9 == 0
    }

    /// The page that holds the address: the address divided by the page size, rounded down.
    pub fn containing_address(address: VirtualAddress) -> (r: Page)
        ensures
            r == Page::spec_containing_address(address),
            r.spec_start_address() <= address@,
    {
        Page { number: address.data() / PAGE_SIZE }
    }

    /// The pages from `start` up to and including `last`.
    pub fn range_inclusive(start: Page, last: Page) -> (r: PageIter)
        requires
            last.number < usize::MAX,
        ensures
            r.start == start,
            r.end.number == last.number + 1,
    {
        PageIter { start, end: last.next() }
    }

    /// The pages from `start` up to, and without, `end`.
    pub fn range_exclusive(start: Page, end: Page) -> (r: PageIter)
        ensures
            r.start == start,
            r.end == end,
    {
        PageIter { start, end }
    }

    /// The page after this one.
    pub fn next(self) -> (r: Page)
        requires
            self.number < usize::MAX,
        ensures
            r.number == self.number + 1,
    {
        self.next_by(1)
    }

    /// The page `n` pages after this one.
    pub fn next_by(self, n: usize) -> (r: Page)
        requires
            self.number + n <= usize::MAX,
        ensures
            r.number == self.number + n,
    {
        Page { number: self.number + n }
    }

    /// How many pages this page lies after `other`.
    pub fn offset_from(self, other: Page) -> (r: usize)
        requires
            other.number <= self.number,
        ensures
            r == self.number - other.number,
    {
        self.number - other.number
    }

    /// A page starts at or below every address it contains, and the address
    /// lies less than one page size above that start.
    pub proof fn lemma_containing_address_bounds(address: VirtualAddress)
        ensures
            Page::spec_containing_address(address).spec_start_address() <= address@,
            address@ < Page::spec_containing_address(address).spec_start_address() + PAGE_SIZE,
    {
    }

    /// Putting the four indices of an addressable page back together gives its number.
    pub proof fn lemma_indices_round_trip(page: Page)
        requires
            page.addressable(),
        ensures
            Page::number_of_indices(
                page.spec_p4_index(),
                page.spec_p3_index(),
                page.spec_p2_index(),
                page.spec_p1_index(),
            ) == page.number,
    {
    }

    /// Four indices below the entry count are the indices of the page they stand for,
    /// and that page is addressable.
    pub proof fn lemma_indices_of_number(i4: nat, i3: nat, i2: nat, i1: nat)
        requires
            i4 < 512,
            i3 < 512,
            i2 < 512,
            i1 < 512,
            Page::number_of_indices(i4, i3, i2, i1) <= usize::MAX,
        ensures
            ({
                let page = Page { number: Page::number_of_indices(i4, i3, i2, i1) as usize };
                &&& page.addressable()
                &&& page.spec_p4_index() == i4
                &&& page.spec_p3_index() == i3
                &&& page.spec_p2_index() == i2
                &&& page.spec_p1_index() == i1
            }),
    {
        let n = Page::number_of_indices(i4, i3, i2, i1);
        let low3 = i3 * 0x4_0000 + i2 * 0x200 + i1;
        let low2 = i2 * 0x200 + i1;
        assert(n == i4 * 0x800_0000 + low3 && low3 < 0x800_0000);
        assert(n / 0x800_0000 == i4);
        assert(n == (i4 * 512 + i3) * 0x4_0000 + low2 && low2 < 0x4_0000);
        assert(n / 0x4_0000 == i4 * 512 + i3);
        assert(n == (i4 * 0x4_0000 + i3 * 512 + i2) * 0x200 + i1);
        assert(n / 0x200 == i4 * 0x4_0000 + i3 * 512 + i2);
    }
}

/// A range of consecutive pages, handed out from the front. Its view is the
/// sequence of pages still to come.
#[derive(Clone, Copy, Debug)]
pub struct PageIter {
    pub start: Page,
    pub end: Page,
}

impl View for PageIter {
    type V = Seq<Page>;

    open spec fn view(&self) -> Seq<Page> {
        Seq::new(
            if self.start.number < self.end.number {
                (self.end.number - self.start.number) as nat
            } else {
                0
            },
            |i: int| Page { number: (self.start.number + i) as usize },
        )
    }
}

impl PageIter {
    /// Hands out the next page of the range, if one is left.
    pub fn next(&mut self) -> (r: Option<Page>)
        ensures
            match r {
                Some(page) => {
                    &&& old(self)@.len() > 0
                    &&& page == old(self)@[0]
                    &&& page == old(self).start
                    &&& final(self)@ == old(self)@.skip(1)
                    &&& final(self).start.number == old(self).start.number + 1
                    &&& final(self).end == old(self).end
                },
                None => old(self)@.len() == 0 && *final(self) == *old(self),
            },
    {
        if self.start.number < self.end.number {
            let page = self.start;
            self.start = self.start.next();
            assert(self@ =~= old(self)@.skip(1));
            Some(page)
        } else {
            None
        }
    }

    /// How many pages are left.
    pub fn len(&self) -> (r: usize)
        ensures
            r == self@.len(),
    {
        if self.start.number < self.end.number {
            self.end.number - self.start.number
        } else {
            0
        }
    }

    /// All pages that are left, in order.
    pub fn collect(self) -> (r: Vec<Page>)
        ensures
            r@ == self@,
    {
        let mut pages: Vec<Page> = Vec::new();
        let mut rest = self;
        loop
            invariant
                self@ == pages@ + rest@,
            ensures
                rest@.len() == 0,
            decreases rest@.len(),
        {
            match rest.next() {
                Some(page) => {
                    pages.push(page);
                },
                None => {
                    break ;
                },
            }
        }
        assert(pages@ + rest@ =~= pages@);
        pages
    }

    /// The range from page `start` over `count` pages holds exactly `count` pages,
    /// in ascending order: the `i`-th is `i` pages after `start`.
    pub proof fn lemma_range_contents(start: Page, count: nat)
        requires
            start.number + count <= usize::MAX,
        ensures
            ({
                let range = PageIter {
                    start,
                    end: Page { number: (start.number + count) as usize },
                };
                &&& range@.len() == count
                &&& forall|i: int|
                    0 <= i < count ==> (#[trigger] range@[i]).number == start.number + i
            }),
    {
    }
}

pub open spec fn spec_round_down_pages(number: nat) -> nat {
    (number / (PAGE_SIZE as nat)) * (PAGE_SIZE as nat)
}

pub open spec fn spec_round_up_pages(number: nat) -> nat {
    spec_round_down_pages((number + (PAGE_SIZE as nat) - 1) as nat)
}

/// Rounds down to the nearest multiple of the page size.
pub fn round_down_pages(number: usize) -> (r: usize)
    ensures
        r == spec_round_down_pages(number as nat),
        r <= number,
        number - r < PAGE_SIZE,
        r % PAGE_SIZE == 0,
{
    number - number % PAGE_SIZE
}

/// Rounds up to the nearest multiple of the page size.
pub fn round_up_pages(number: usize) -> (r: usize)
    requires
        number + PAGE_SIZE - 1 <= usize::MAX,
    ensures
        r == spec_round_up_pages(number as nat),
        number <= r,
        r - number < PAGE_SIZE,
        r % PAGE_SIZE == 0,
{
    round_down_pages(number + (PAGE_SIZE - 1))
}

/// Rounding down lands on a multiple of the page size at most one page below,
/// rounding up on one at most one page above.
pub proof fn lemma_rounding_bounds(number: nat)
    ensures
        spec_round_down_pages(number) <= number <= spec_round_up_pages(number),
        number - spec_round_down_pages(number) < PAGE_SIZE,
        spec_round_up_pages(number) - number < PAGE_SIZE,
        spec_round_down_pages(number) % (PAGE_SIZE as nat) == 0,
        spec_round_up_pages(number) % (PAGE_SIZE as nat) == 0,
{
}

/// Rounding down a second time changes nothing.
pub proof fn lemma_round_down_idempotent(number: nat)
    ensures
        spec_round_down_pages(spec_round_down_pages(number)) == spec_round_down_pages(number),
{
}

} // verus!
