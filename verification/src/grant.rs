//! Grants: the regions of an address space, kept in order and free of overlap.

use vstd::prelude::*;
use crate::flags::PageFlags;
use crate::paging::Page;

verus! {

/// How a region is backed.
#[derive(Clone, Copy, Debug, PartialEq, Eq, Structural)]
pub enum Provider {
    /// Anonymous memory of this address space alone.
    AnonymousPrivate,
    /// Anonymous memory shared on purpose.
    AnonymousShared,
    /// Memory inherited copy-on-write.
    CowDerived,
    /// Memory of a device.
    DeviceMapped,
    /// Memory that stands for a file.
    FileMapped,
}

/// Why the region map refused a grant.
#[derive(Clone, Copy, Debug, PartialEq, Eq, Structural)]
pub enum GrantError {
    /// The grant shares a page with a grant that the map already holds.
    Overlap,
    /// The map holds no grant with that base.
    NotFound,
    /// The grant cannot have that number of pages.
    BadLength,
}

/// A region of virtual memory: `page_count` pages from `base` on, with the
/// permissions that the software intends and the way the region is backed.
#[derive(Clone, Copy, Debug, PartialEq, Eq, Structural)]
pub struct Grant {
    pub base: Page,
    pub page_count: usize,
    pub flags: PageFlags,
    pub provider: Provider,
}

impl Grant {
    /// The grant holds a page, and the number of the page after its last fits the machine.
    pub open spec fn wf(self) -> bool {
        self.page_count > 0 && self.base.number + self.page_count <= usize::MAX
    }

    /// The number of the page after the last page of the grant.
    pub open spec fn spec_end(self) -> nat {
        (self.base.number + self.page_count) as nat
    }

    /// Whether the page lies in the grant.
    pub open spec fn covers(self, page: Page) -> bool {
        self.base.number <= page.number < self.spec_end()
    }

    /// Whether the two grants have a page in common.
    pub open spec fn overlaps(self, other: Grant) -> bool {
        self.base.number < other.spec_end() && other.base.number < self.spec_end()
    }

    /// A grant of `page_count` pages from `base` on. There is none of no pages,
    /// nor one that reaches beyond the last page number.
    pub fn new(base: Page, page_count: usize, flags: PageFlags, provider: Provider) -> (r: Option<
        Grant,
    >)
        ensures
            match r {
                Some(grant) => {
                    &&& grant.wf()
                    &&& grant == (Grant { base, page_count, flags, provider })
                },
                None => !(Grant { base, page_count, flags, provider }).wf(),
            },
    {
        if page_count == 0 || page_count > usize::MAX - base.number {
            None
        } else {
            Some(Grant { base, page_count, flags, provider })
        }
    }

    /// Whether the grant holds a page and ends within the page numbers.
    pub fn is_well_formed(&self) -> (r: bool)
        ensures
            r == self.wf(),
    {
        self.page_count > 0 && self.page_count <= usize::MAX - self.base.number
    }

    pub fn base(&self) -> (r: Page)
        ensures
            r == self.base,
    {
        self.base
    }

    pub fn page_count(&self) -> (r: usize)
        ensures
            r == self.page_count,
    {
        self.page_count
    }

    pub fn flags(&self) -> (r: PageFlags)
        ensures
            r == self.flags,
    {
        self.flags
    }

    pub fn provider(&self) -> (r: Provider)
        ensures
            r == self.provider,
    {
        self.provider
    }

    /// The page after the last page of the grant.
    pub fn end(&self) -> (r: Page)
        requires
            self.wf(),
        ensures
            r.number == self.spec_end(),
    {
        self.base.next_by(self.page_count)
    }

    /// Whether the page lies in the grant.
    pub fn contains(&self, page: Page) -> (r: bool)
        requires
            self.wf(),
        ensures
            r == self.covers(page),
    {
        self.base.number <= page.number && page.number - self.base.number < self.page_count
    }

    /// Two grants overlap exactly if some page lies in both.
    pub proof fn lemma_overlap_is_common_page(a: Grant, b: Grant)
        requires
            a.wf(),
            b.wf(),
        ensures
            a.overlaps(b) <==> exists|page: Page| a.covers(page) && b.covers(page),
    {
        if a.overlaps(b) {
            let number = if a.base.number <= b.base.number {
                b.base.number
            } else {
                a.base.number
            };
            let page = Page { number };
            assert(a.covers(page) && b.covers(page));
        }
    }
}

/// Whether each grant of the sequence ends at or before the base of every later one.
pub open spec fn sorted_disjoint(s: Seq<Grant>) -> bool {
    forall|i: int, j: int|
        #![trigger s[i], s[j]]
        0 <= i < j < s.len() ==> s[i].spec_end() <= s[j].base.number
}

/// Whether the sequence can be the content of a region map: each grant is
/// well-formed, and they stand in ascending order without overlap.
pub open spec fn grants_wf(s: Seq<Grant>) -> bool {
    &&& forall|i: int| 0 <= i < s.len() ==> (#[trigger] s[i]).wf()
    &&& sorted_disjoint(s)
}

/// How many grants of the sequence have their base at or below the page number.
pub open spec fn rank(s: Seq<Grant>, number: nat) -> nat
    decreases s.len(),
{
    if s.len() == 0 {
        0
    } else {
        rank(s.drop_last(), number) + if s.last().base.number <= number {
            1nat
        } else {
            0nat
        }
    }
}

/// Whether the grant has a page in common with a grant of the sequence.
pub open spec fn overlaps_any(s: Seq<Grant>, grant: Grant) -> bool {
    exists|i: int| 0 <= i < s.len() && #[trigger] s[i].overlaps(grant)
}

/// The grant of the sequence that the page lies in, if there is one.
pub open spec fn covering(s: Seq<Grant>, page: Page) -> Option<Grant> {
    if exists|i: int| 0 <= i < s.len() && #[trigger] s[i].covers(page) {
        Some(s[choose|i: int| 0 <= i < s.len() && #[trigger] s[i].covers(page)])
    } else {
        None
    }
}

/// The sequence with the grant put in its place by base, or the refusal of a
/// grant that overlaps.
pub open spec fn spec_insert(s: Seq<Grant>, grant: Grant) -> Result<Seq<Grant>, GrantError> {
    if overlaps_any(s, grant) {
        Err(GrantError::Overlap)
    } else {
        Ok(s.insert(rank(s, grant.base.number as nat) as int, grant))
    }
}

/// The index of the grant with that base, if the sequence holds one.
pub open spec fn index_of_base(s: Seq<Grant>, base: Page) -> Option<int> {
    if exists|i: int| 0 <= i < s.len() && (#[trigger] s[i]).base == base {
        Some(choose|i: int| 0 <= i < s.len() && (#[trigger] s[i]).base == base)
    } else {
        None
    }
}

/// The sequence without the grant that has that base.
pub open spec fn spec_remove(s: Seq<Grant>, base: Page) -> Seq<Grant> {
    match index_of_base(s, base) {
        Some(i) => s.remove(i),
        None => s,
    }
}

/// The grant with another number of pages.
pub open spec fn resized(grant: Grant, page_count: usize) -> Grant {
    Grant { base: grant.base, page_count, flags: grant.flags, provider: grant.provider }
}

/// The part of the grant below the page.
pub open spec fn lower_part(grant: Grant, page: Page) -> Grant {
    resized(grant, (page.number - grant.base.number) as usize)
}

/// The part of the grant from the page on.
pub open spec fn upper_part(grant: Grant, page: Page) -> Grant {
    Grant {
        base: page,
        page_count: (grant.spec_end() - page.number) as usize,
        flags: grant.flags,
        provider: grant.provider,
    }
}

/// The sequence in which the grant with that base has `page_count` pages,
/// which must be some and no more than it had, or the refusal.
pub open spec fn spec_shrink(s: Seq<Grant>, base: Page, page_count: usize) -> Result<
    Seq<Grant>,
    GrantError,
> {
    match index_of_base(s, base) {
        None => Err(GrantError::NotFound),
        Some(i) => if 0 < page_count <= s[i].page_count {
            Ok(s.update(i, resized(s[i], page_count)))
        } else {
            Err(GrantError::BadLength)
        },
    }
}

/// The sequence in which the grant that the page lies in, but does not start,
/// is split in two at the page. Without such a grant, there is none.
pub open spec fn spec_split(s: Seq<Grant>, page: Page) -> Option<Seq<Grant>> {
    match covering(s, page) {
        Some(grant) => if grant.base == page {
            None
        } else {
            match index_of_base(s, grant.base) {
                Some(i) => Some(
                    s.update(i, lower_part(grant, page)).insert(i + 1, upper_part(grant, page)),
                ),
                None => None,
            }
        },
        None => None,
    }
}

/// Where the first `r` grants have their base at or below the number and the
/// others above, `r` is the rank of the number.
pub proof fn lemma_rank_is_split(s: Seq<Grant>, number: nat, r: int)
    requires
        0 <= r <= s.len(),
        forall|i: int| 0 <= i < r ==> (#[trigger] s[i]).base.number <= number,
        forall|i: int| r <= i < s.len() ==> (#[trigger] s[i]).base.number > number,
    ensures
        rank(s, number) == r,
    decreases s.len(),
{
    if s.len() > 0 {
        let t = s.drop_last();
        assert(forall|i: int| 0 <= i < t.len() ==> t[i] == s[i]);
        if r == s.len() {
            lemma_rank_is_split(t, number, r - 1);
        } else {
            lemma_rank_is_split(t, number, r);
        }
    }
}

/// In a well-formed sequence the rank of a number splits the grants: those
/// before it have their base at or below the number, the others above.
pub proof fn lemma_rank_splits(s: Seq<Grant>, number: nat)
    requires
        grants_wf(s),
    ensures
        rank(s, number) <= s.len(),
        forall|i: int| 0 <= i < rank(s, number) ==> (#[trigger] s[i]).base.number <= number,
        forall|i: int| rank(s, number) <= i < s.len() ==> (#[trigger] s[i]).base.number > number,
    decreases s.len(),
{
    if s.len() > 0 {
        let t = s.drop_last();
        assert(forall|i: int| 0 <= i < t.len() ==> t[i] == s[i]);
        assert(grants_wf(t));
        lemma_rank_splits(t, number);
        let last = s.len() - 1;
        if s.last().base.number <= number {
            assert forall|i: int| 0 <= i < s.len() implies (#[trigger] s[i]).base.number
                <= number by {
                if i < last {
                    assert(s[i].wf());
                    assert(s[i].spec_end() <= s[last].base.number);
                }
            }
            lemma_rank_is_split(t, number, t.len() as int);
        }
    }
}

/// In a well-formed sequence at most one grant covers a page: the one that
/// does is what the lookup gives.
pub proof fn lemma_covering_unique(s: Seq<Grant>, page: Page, i: int)
    requires
        grants_wf(s),
        0 <= i < s.len(),
        s[i].covers(page),
    ensures
        covering(s, page) == Some(s[i]),
{
    let j = choose|j: int| 0 <= j < s.len() && #[trigger] s[j].covers(page);
    assert(s[j].covers(page));
    if j < i {
        assert(s[j].spec_end() <= s[i].base.number);
    } else if i < j {
        assert(s[i].spec_end() <= s[j].base.number);
    }
}

/// Putting a grant that overlaps none at its rank keeps the sequence well-formed.
pub proof fn lemma_insert_keeps_wf(s: Seq<Grant>, grant: Grant)
    requires
        grants_wf(s),
        grant.wf(),
        !overlaps_any(s, grant),
    ensures
        spec_insert(s, grant) matches Ok(t) && grants_wf(t),
{
    let r = rank(s, grant.base.number as nat) as int;
    lemma_rank_splits(s, grant.base.number as nat);
    let t = s.insert(r, grant);
    assert forall|k: int| 0 <= k < t.len() implies (#[trigger] t[k]).wf() by {
        if k < r {
            assert(t[k] == s[k]);
        } else if k > r {
            assert(t[k] == s[k - 1]);
        }
    }
    assert forall|i: int, j: int| 0 <= i < j < t.len() implies t[i].spec_end()
        <= t[j].base.number by {
        let a = if i < r {
            i
        } else {
            i - 1
        };
        let b = if j < r {
            j
        } else {
            j - 1
        };
        if i != r {
            assert(t[i] == s[a]);
            assert(s[a].wf());
            assert(!s[a].overlaps(grant));
        }
        if j != r {
            assert(t[j] == s[b]);
            assert(s[b].wf());
            assert(!s[b].overlaps(grant));
        }
        if i != r && j != r {
            assert(s[a].spec_end() <= s[b].base.number);
        }
    }
}

/// After a grant went in, a page inside it is looked up to that grant, and a
/// page outside it to what it was looked up to before.
pub proof fn lemma_insert_lookup(s: Seq<Grant>, grant: Grant, page: Page)
    requires
        grants_wf(s),
        grant.wf(),
        spec_insert(s, grant) is Ok,
    ensures
        covering(spec_insert(s, grant)->Ok_0, page) == if grant.covers(page) {
            Some(grant)
        } else {
            covering(s, page)
        },
{
    let r = rank(s, grant.base.number as nat) as int;
    lemma_rank_splits(s, grant.base.number as nat);
    lemma_insert_keeps_wf(s, grant);
    let t = s.insert(r, grant);
    if grant.covers(page) {
        assert(t[r] == grant);
        lemma_covering_unique(t, page, r);
    } else if exists|i: int| 0 <= i < s.len() && #[trigger] s[i].covers(page) {
        let i = choose|i: int| 0 <= i < s.len() && #[trigger] s[i].covers(page);
        lemma_covering_unique(s, page, i);
        let k = if i < r {
            i
        } else {
            i + 1
        };
        assert(t[k] == s[i]);
        lemma_covering_unique(t, page, k);
    } else {
        assert forall|k: int| 0 <= k < t.len() implies !(#[trigger] t[k]).covers(page) by {
            if k < r {
                assert(t[k] == s[k]);
            } else if k > r {
                assert(t[k] == s[k - 1]);
            }
        }
    }
}

/// In a map that holds one grant alone, a page inside the grant is looked up
/// to it, and a page outside it to nothing.
pub proof fn lemma_single_grant_lookup(grant: Grant, page: Page)
    requires
        grant.wf(),
    ensures
        spec_insert(Seq::empty(), grant) is Ok,
        covering(spec_insert(Seq::empty(), grant)->Ok_0, page) == if grant.covers(page) {
            Some(grant)
        } else {
            None
        },
{
    let none = Seq::<Grant>::empty();
    assert(grants_wf(none));
    assert(!overlaps_any(none, grant));
    lemma_insert_lookup(none, grant, page);
}

/// After a grant went in, a grant that overlaps it is refused.
pub proof fn lemma_insert_overlap_fails(s: Seq<Grant>, first: Grant, second: Grant)
    requires
        grants_wf(s),
        first.wf(),
        spec_insert(s, first) is Ok,
        first.overlaps(second),
    ensures
        spec_insert(spec_insert(s, first)->Ok_0, second) == Err::<Seq<Grant>, GrantError>(
            GrantError::Overlap,
        ),
{
    let r = rank(s, first.base.number as nat) as int;
    lemma_rank_splits(s, first.base.number as nat);
    let t = s.insert(r, first);
    assert(t[r] == first);
    assert(t[r].overlaps(second));
}

/// Taking the grant at an index out keeps the sequence well-formed; a page
/// inside that grant is then looked up to nothing, a page outside it to what
/// it was looked up to before.
pub proof fn lemma_remove_lookup(s: Seq<Grant>, i: int, page: Page)
    requires
        grants_wf(s),
        0 <= i < s.len(),
    ensures
        grants_wf(s.remove(i)),
        covering(s.remove(i), page) == if s[i].covers(page) {
            None
        } else {
            covering(s, page)
        },
{
    let t = s.remove(i);
    assert forall|k: int| 0 <= k < t.len() implies (#[trigger] t[k]).wf() by {
        if k < i {
            assert(t[k] == s[k]);
        } else {
            assert(t[k] == s[k + 1]);
        }
    }
    assert forall|a: int, b: int| 0 <= a < b < t.len() implies t[a].spec_end()
        <= t[b].base.number by {
        let a0 = if a < i {
            a
        } else {
            a + 1
        };
        let b0 = if b < i {
            b
        } else {
            b + 1
        };
        assert(t[a] == s[a0]);
        assert(t[b] == s[b0]);
        assert(s[a0].spec_end() <= s[b0].base.number);
    }
    if exists|j: int| 0 <= j < s.len() && #[trigger] s[j].covers(page) {
        let j = choose|j: int| 0 <= j < s.len() && #[trigger] s[j].covers(page);
        lemma_covering_unique(s, page, j);
        if s[i].covers(page) {
            lemma_covering_unique(s, page, i);
            assert forall|k: int| 0 <= k < t.len() implies !(#[trigger] t[k]).covers(page) by {
                let k0 = if k < i {
                    k
                } else {
                    k + 1
                };
                assert(t[k] == s[k0]);
                if s[k0].covers(page) {
                    lemma_covering_unique(s, page, k0);
                    if k0 < i {
                        assert(s[k0].spec_end() <= s[i].base.number);
                    } else {
                        assert(s[i].spec_end() <= s[k0].base.number);
                    }
                }
            }
        } else {
            let k = if j < i {
                j
            } else {
                j - 1
            };
            assert(t[k] == s[j]);
            lemma_covering_unique(t, page, k);
        }
    } else {
        assert forall|k: int| 0 <= k < t.len() implies !(#[trigger] t[k]).covers(page) by {
            if k < i {
                assert(t[k] == s[k]);
            } else {
                assert(t[k] == s[k + 1]);
            }
        }
    }
}

/// Where each grant holds a page and ends at or before the base of the next,
/// each ends at or before the base of every later one.
pub proof fn lemma_neighbours_sorted(s: Seq<Grant>)
    requires
        forall|k: int| 0 <= k < s.len() ==> (#[trigger] s[k]).wf(),
        forall|k: int| 0 < k < s.len() ==> (#[trigger] s[k - 1]).spec_end() <= s[k].base.number,
    ensures
        sorted_disjoint(s),
    decreases s.len(),
{
    if s.len() > 0 {
        let t = s.drop_last();
        assert forall|k: int| 0 < k < t.len() implies (#[trigger] t[k - 1]).spec_end()
            <= t[k].base.number by {
            assert(s[k - 1].spec_end() <= s[k].base.number);
        }
        assert(forall|k: int| 0 <= k < t.len() ==> (#[trigger] t[k]) == s[k]);
        lemma_neighbours_sorted(t);
        let last = s.len() - 1;
        assert forall|i: int, j: int| 0 <= i < j < s.len() implies s[i].spec_end()
            <= s[j].base.number by {
            if j < last {
                assert(t[i].spec_end() <= t[j].base.number);
            } else if i == last - 1 {
                assert(s[last - 1].spec_end() <= s[last].base.number);
            } else {
                assert(t[i].spec_end() <= t[last - 1].base.number);
                assert(s[last - 1].wf());
                assert(s[last - 1].spec_end() <= s[last].base.number);
            }
        }
    }
}

/// In a well-formed sequence no two grants have the same base.
pub proof fn lemma_base_unique(s: Seq<Grant>, i: int)
    requires
        grants_wf(s),
        0 <= i < s.len(),
    ensures
        index_of_base(s, s[i].base) == Some(i),
{
    let j = choose|j: int| 0 <= j < s.len() && (#[trigger] s[j]).base == s[i].base;
    assert(s[j].wf() && s[i].wf());
    if j < i {
        assert(s[j].spec_end() <= s[i].base.number);
    } else if i < j {
        assert(s[i].spec_end() <= s[j].base.number);
    }
}

/// Giving the grant at an index fewer pages keeps the sequence well-formed. A
/// page that the grant keeps is then looked up to the smaller grant, a page
/// that it gives up to nothing, and any other page to what it was looked up
/// to before.
pub proof fn lemma_shrink_lookup(s: Seq<Grant>, i: int, page_count: usize, page: Page)
    requires
        grants_wf(s),
        0 <= i < s.len(),
        0 < page_count <= s[i].page_count,
    ensures
        grants_wf(s.update(i, resized(s[i], page_count))),
        covering(s.update(i, resized(s[i], page_count)), page) == if resized(
            s[i],
            page_count,
        ).covers(page) {
            Some(resized(s[i], page_count))
        } else if s[i].covers(page) {
            None
        } else {
            covering(s, page)
        },
{
    let small = resized(s[i], page_count);
    let t = s.update(i, small);
    assert(s[i].wf());
    assert forall|k: int| 0 <= k < t.len() implies (#[trigger] t[k]).wf() by {
        if k != i {
            assert(t[k] == s[k]);
        }
    }
    assert forall|a: int, b: int| 0 <= a < b < t.len() implies t[a].spec_end()
        <= t[b].base.number by {
        assert(s[a].spec_end() <= s[b].base.number);
    }
    if small.covers(page) {
        lemma_covering_unique(t, page, i);
    } else if exists|j: int| 0 <= j < t.len() && #[trigger] t[j].covers(page) {
        let j = choose|j: int| 0 <= j < t.len() && #[trigger] t[j].covers(page);
        assert(j != i);
        assert(t[j] == s[j]);
        lemma_covering_unique(t, page, j);
        lemma_covering_unique(s, page, j);
        if s[i].covers(page) {
            lemma_covering_unique(s, page, i);
            if j < i {
                assert(s[j].spec_end() <= s[i].base.number);
            } else {
                assert(s[i].spec_end() <= s[j].base.number);
            }
        }
    } else {
        if !s[i].covers(page) {
            assert forall|j: int| 0 <= j < s.len() implies !(#[trigger] s[j]).covers(page) by {
                if j != i {
                    assert(t[j] == s[j]);
                    assert(!t[j].covers(page));
                }
            }
        }
    }
}

/// Splitting the grant at an index at a page inside it keeps the sequence
/// well-formed. A page of that grant is then looked up to the part it lies
/// in, and any other page to what it was looked up to before.
pub proof fn lemma_split_lookup(s: Seq<Grant>, i: int, at: Page, page: Page)
    requires
        grants_wf(s),
        0 <= i < s.len(),
        s[i].covers(at),
        s[i].base != at,
    ensures
        grants_wf(s.update(i, lower_part(s[i], at)).insert(i + 1, upper_part(s[i], at))),
        covering(s.update(i, lower_part(s[i], at)).insert(i + 1, upper_part(s[i], at)), page)
            == if lower_part(s[i], at).covers(page) {
            Some(lower_part(s[i], at))
        } else if upper_part(s[i], at).covers(page) {
            Some(upper_part(s[i], at))
        } else {
            covering(s, page)
        },
{
    let lower = lower_part(s[i], at);
    let upper = upper_part(s[i], at);
    let t = s.update(i, lower).insert(i + 1, upper);
    assert(s[i].wf());
    assert(t[i] == lower);
    assert(t[i + 1] == upper);
    assert forall|k: int| 0 <= k < t.len() implies (#[trigger] t[k]).wf() && (k < i ==> t[k]
        == s[k]) && (k > i + 1 ==> t[k] == s[k - 1]) by {
        if k < i {
            assert(t[k] == s[k]);
            assert(s[k].wf());
        } else if k > i + 1 {
            assert(t[k] == s[k - 1]);
            assert(s[k - 1].wf());
        }
    }
    assert forall|a: int, b: int| 0 <= a < b < t.len() implies t[a].spec_end()
        <= t[b].base.number by {
        let a0 = if a <= i {
            a
        } else {
            a - 1
        };
        let b0 = if b <= i {
            b
        } else {
            b - 1
        };
        assert(t[a].wf() && t[b].wf());
        if a0 < b0 {
            assert(s[a0].spec_end() <= s[b0].base.number);
        }
    }
    if lower.covers(page) {
        lemma_covering_unique(t, page, i);
    } else if upper.covers(page) {
        lemma_covering_unique(t, page, i + 1);
    } else if exists|j: int| 0 <= j < s.len() && #[trigger] s[j].covers(page) {
        let j = choose|j: int| 0 <= j < s.len() && #[trigger] s[j].covers(page);
        lemma_covering_unique(s, page, j);
        assert(j != i);
        let k = if j < i {
            j
        } else {
            j + 1
        };
        assert(t[k] == s[j]);
        lemma_covering_unique(t, page, k);
    } else {
        assert forall|k: int| 0 <= k < t.len() implies !(#[trigger] t[k]).covers(page) by {
            if k < i {
                assert(t[k] == s[k]);
                assert(!s[k].covers(page));
            } else if k > i + 1 {
                assert(t[k] == s[k - 1]);
                assert(!s[k - 1].covers(page));
            }
        }
    }
}

/// The regions of one address space, in ascending order of their base. The
/// view is that sequence of grants.
#[derive(Debug)]
pub struct GrantMap {
    pub grants: Vec<Grant>,
}

impl View for GrantMap {
    type V = Seq<Grant>;

    open spec fn view(&self) -> Seq<Grant> {
        self.grants@
    }
}

impl GrantMap {
    /// The grants are well-formed, in ascending order, and none overlaps another.
    pub open spec fn wf(&self) -> bool {
        grants_wf(self@)
    }

    /// The grant that the page lies in, if there is one.
    pub open spec fn spec_contains(&self, page: Page) -> Option<Grant> {
        covering(self@, page)
    }

    /// A map without grants.
    pub fn new() -> (r: GrantMap)
        ensures
            r.wf(),
            r@ == Seq::<Grant>::empty(),
    {
        GrantMap { grants: Vec::new() }
    }

    /// Whether the grants are well-formed, in ascending order, and free of overlap.
    pub fn is_well_formed(&self) -> (r: bool)
        ensures
            r == self.wf(),
    {
        let mut i: usize = 0;
        while i < self.grants.len()
            invariant
                i <= self@.len(),
                forall|k: int| 0 <= k < i ==> (#[trigger] self@[k]).wf(),
                forall|k: int|
                    0 < k < i ==> (#[trigger] self@[k - 1]).spec_end() <= self@[k].base.number,
            decreases self@.len() - i,
        {
            let grant = self.grants[i];
            if !grant.is_well_formed() {
                return false;
            }
            if i > 0 {
                let before = self.grants[i - 1];
                if before.base.number + before.page_count > grant.base.number {
                    assert(!(self@[i - 1].spec_end() <= self@[i as int].base.number));
                    return false;
                }
            }
            i = i + 1;
        }
        proof {
            lemma_neighbours_sorted(self@);
        }
        true
    }

    /// The number of grants.
    pub fn len(&self) -> (r: usize)
        ensures
            r == self@.len(),
    {
        self.grants.len()
    }

    pub fn is_empty(&self) -> (r: bool)
        ensures
            r == (self@.len() == 0),
    {
        self.grants.len() == 0
    }

    /// The grant at an index of the ascending order, if the index is below the length.
    pub fn get(&self, index: usize) -> (r: Option<Grant>)
        ensures
            r == if index < self@.len() {
                Some(self@[index as int])
            } else {
                None
            },
    {
        if index < self.grants.len() {
            Some(self.grants[index])
        } else {
            None
        }
    }

    /// How many grants have their base at or below the page number, by binary search.
    fn position(&self, number: usize) -> (r: usize)
        requires
            self.wf(),
        ensures
            r == rank(self@, number as nat),
            r <= self@.len(),
            forall|i: int| 0 <= i < r ==> (#[trigger] self@[i]).base.number <= number,
            forall|i: int| r <= i < self@.len() ==> (#[trigger] self@[i]).base.number > number,
    {
        let mut lo: usize = 0;
        let mut hi: usize = self.grants.len();
        while lo < hi
            invariant
                self.wf(),
                lo <= hi <= self@.len(),
                forall|i: int| 0 <= i < lo ==> (#[trigger] self@[i]).base.number <= number,
                forall|i: int| hi <= i < self@.len() ==> (#[trigger] self@[i]).base.number > number,
            decreases hi - lo,
        {
            let mid: usize = lo + (hi - lo) / 2;
            if self.grants[mid].base.number <= number {
                assert forall|i: int| 0 <= i < mid + 1 implies (#[trigger] self@[i]).base.number
                    <= number by {
                    if i < mid {
                        assert(self@[i].wf());
                        assert(self@[i].spec_end() <= self@[mid as int].base.number);
                    }
                }
                lo = mid + 1;
            } else {
                assert forall|i: int| mid <= i < self@.len() implies (
                #[trigger] self@[i]).base.number > number by {
                    if mid < i {
                        assert(self@[mid as int].wf());
                        assert(self@[mid as int].spec_end() <= self@[i].base.number);
                    }
                }
                hi = mid;
            }
        }
        proof {
            lemma_rank_is_split(self@, number as nat, lo as int);
        }
        lo
    }

    /// The grant that the page lies in, with its base, if there is one.
    pub fn contains(&self, page: Page) -> (r: Option<(Page, Grant)>)
        requires
            self.wf(),
        ensures
            match r {
                Some((base, grant)) => {
                    &&& self.spec_contains(page) == Some(grant)
                    &&& base == grant.base
                    &&& grant.covers(page)
                },
                None => self.spec_contains(page) is None,
            },
    {
        let r: usize = self.position(page.number);
        if r == 0 {
            return None;
        }
        let grant = self.grants[r - 1];
        assert(grant.wf());
        if grant.contains(page) {
            proof {
                lemma_covering_unique(self@, page, r - 1);
            }
            Some((grant.base, grant))
        } else {
            assert forall|i: int| 0 <= i < self@.len() implies !(#[trigger] self@[i]).covers(
                page,
            ) by {
                if i < r - 1 {
                    assert(self@[i].spec_end() <= self@[r - 1].base.number);
                }
            }
            None
        }
    }

    /// Puts the grant into the map, unless it shares a page with a grant that
    /// the map holds.
    pub fn insert(&mut self, grant: Grant) -> (r: Result<(), GrantError>)
        requires
            old(self).wf(),
            grant.wf(),
        ensures
            final(self).wf(),
            match r {
                Ok(()) => {
                    &&& spec_insert(old(self)@, grant) == Ok::<Seq<Grant>, GrantError>(
                        final(self)@,
                    )
                    &&& forall|page: Page|
                        #[trigger] final(self).spec_contains(page) == if grant.covers(page) {
                            Some(grant)
                        } else {
                            old(self).spec_contains(page)
                        }
                },
                Err(e) => {
                    &&& spec_insert(old(self)@, grant) == Err::<Seq<Grant>, GrantError>(e)
                    &&& final(self)@ == old(self)@
                },
            },
    {
        let r: usize = self.position(grant.base.number);
        if r > 0 {
            let before = self.grants[r - 1];
            assert(before.wf());
            if before.page_count > grant.base.number - before.base.number {
                assert(self@[r - 1].overlaps(grant));
                return Err(GrantError::Overlap);
            }
        }
        if r < self.grants.len() {
            let after = self.grants[r];
            assert(after.wf());
            if after.base.number - grant.base.number < grant.page_count {
                assert(self@[r as int].overlaps(grant));
                return Err(GrantError::Overlap);
            }
        }
        proof {
            assert forall|i: int| 0 <= i < self@.len() implies !(#[trigger] self@[i]).overlaps(
                grant,
            ) by {
                assert(self@[i].wf());
                if i < r - 1 {
                    assert(self@[i].spec_end() <= self@[r - 1].base.number);
                } else if i > r {
                    assert(self@[r as int].spec_end() <= self@[i].base.number);
                }
            }
            lemma_insert_keeps_wf(self@, grant);
            assert forall|page: Page|
                covering(#[trigger] spec_insert(self@, grant)->Ok_0, page) == if grant.covers(
                    page,
                ) {
                    Some(grant)
                } else {
                    covering(self@, page)
                } by {
                lemma_insert_lookup(self@, grant, page);
            }
        }
        self.grants.insert(r, grant);
        Ok(())
    }

    /// Takes the grant with that base out of the map and returns it, if there is one.
    pub fn remove(&mut self, base: Page) -> (r: Option<Grant>)
        requires
            old(self).wf(),
        ensures
            final(self).wf(),
            final(self)@ == spec_remove(old(self)@, base),
            match r {
                Some(grant) => {
                    &&& index_of_base(old(self)@, base) matches Some(i)
                    &&& grant == old(self)@[i]
                    &&& grant.base == base
                    &&& forall|page: Page|
                        #[trigger] final(self).spec_contains(page) == if grant.covers(page) {
                            None
                        } else {
                            old(self).spec_contains(page)
                        }
                },
                None => index_of_base(old(self)@, base) is None,
            },
    {
        let r: usize = self.position(base.number);
        if r == 0 || self.grants[r - 1].base.number != base.number {
            assert forall|i: int| 0 <= i < self@.len() implies (#[trigger] self@[i]).base
                != base by {
                if r > 0 && i < r - 1 {
                    assert(self@[i].wf());
                    assert(self@[i].spec_end() <= self@[r - 1].base.number);
                }
            }
            return None;
        }
        proof {
            lemma_base_unique(self@, r - 1);
            assert forall|page: Page|
                covering(#[trigger] self@.remove(r - 1), page) == if self@[r - 1].covers(page) {
                    None
                } else {
                    covering(self@, page)
                } by {
                lemma_remove_lookup(self@, r - 1, page);
            }
            lemma_remove_lookup(self@, r - 1, base);
        }
        let grant = self.grants.remove(r - 1);
        Some(grant)
    }

    /// Gives the grant with that base `page_count` pages, which must be some
    /// and no more than it has, and returns the grant as it was.
    pub fn shrink(&mut self, base: Page, page_count: usize) -> (r: Result<Grant, GrantError>)
        requires
            old(self).wf(),
        ensures
            final(self).wf(),
            match r {
                Ok(grant) => {
                    &&& index_of_base(old(self)@, base) matches Some(i)
                    &&& grant == old(self)@[i]
                    &&& spec_shrink(old(self)@, base, page_count) == Ok::<
                        Seq<Grant>,
                        GrantError,
                    >(final(self)@)
                    &&& forall|page: Page| #[trigger]
                        final(self).spec_contains(page) == if resized(grant, page_count).covers(
                            page,
                        ) {
                            Some(resized(grant, page_count))
                        } else if grant.covers(page) {
                            None
                        } else {
                            old(self).spec_contains(page)
                        }
                },
                Err(e) => {
                    &&& spec_shrink(old(self)@, base, page_count) == Err::<
                        Seq<Grant>,
                        GrantError,
                    >(e)
                    &&& final(self)@ == old(self)@
                },
            },
    {
        let r: usize = self.position(base.number);
        if r == 0 || self.grants[r - 1].base.number != base.number {
            assert forall|i: int| 0 <= i < self@.len() implies (#[trigger] self@[i]).base
                != base by {
                if r > 0 && i < r - 1 {
                    assert(self@[i].wf());
                    assert(self@[i].spec_end() <= self@[r - 1].base.number);
                }
            }
            return Err(GrantError::NotFound);
        }
        let grant = self.grants[r - 1];
        proof {
            lemma_base_unique(self@, r - 1);
        }
        if page_count == 0 || page_count > grant.page_count {
            return Err(GrantError::BadLength);
        }
        proof {
            assert forall|page: Page|
                covering(#[trigger] self@.update(r - 1, resized(grant, page_count)), page)
                    == if resized(grant, page_count).covers(page) {
                    Some(resized(grant, page_count))
                } else if grant.covers(page) {
                    None
                } else {
                    covering(self@, page)
                } by {
                lemma_shrink_lookup(self@, r - 1, page_count, page);
            }
            lemma_shrink_lookup(self@, r - 1, page_count, base);
        }
        self.grants[r - 1] = Grant {
            base: grant.base,
            page_count,
            flags: grant.flags,
            provider: grant.provider,
        };
        Ok(grant)
    }

    /// Splits the grant that the page lies in at the page, unless the page is
    /// its base, and returns the two parts.
    pub fn split(&mut self, page: Page) -> (r: Option<(Grant, Grant)>)
        requires
            old(self).wf(),
        ensures
            final(self).wf(),
            match r {
                Some((lower, upper)) => {
                    &&& old(self).spec_contains(page) matches Some(grant)
                    &&& lower == lower_part(grant, page)
                    &&& upper == upper_part(grant, page)
                    &&& spec_split(old(self)@, page) == Some(final(self)@)
                    &&& forall|q: Page| #[trigger]
                        final(self).spec_contains(q) == if lower.covers(q) {
                            Some(lower)
                        } else if upper.covers(q) {
                            Some(upper)
                        } else {
                            old(self).spec_contains(q)
                        }
                },
                None => spec_split(old(self)@, page) is None && final(self)@ == old(self)@,
            },
    {
        let r: usize = self.position(page.number);
        if r == 0 {
            assert forall|i: int| 0 <= i < self@.len() implies !(#[trigger] self@[i]).covers(
                page,
            ) by {}
            return None;
        }
        let grant = self.grants[r - 1];
        assert(grant.wf());
        if !grant.contains(page) {
            assert forall|i: int| 0 <= i < self@.len() implies !(#[trigger] self@[i]).covers(
                page,
            ) by {
                if i < r - 1 {
                    assert(self@[i].spec_end() <= self@[r - 1].base.number);
                }
            }
            return None;
        }
        proof {
            lemma_covering_unique(self@, page, r - 1);
            lemma_base_unique(self@, r - 1);
        }
        if grant.base.number == page.number {
            return None;
        }
        let lower = Grant {
            base: grant.base,
            page_count: page.number - grant.base.number,
            flags: grant.flags,
            provider: grant.provider,
        };
        let upper = Grant {
            base: page,
            page_count: grant.page_count - lower.page_count,
            flags: grant.flags,
            provider: grant.provider,
        };
        proof {
            assert(lower == lower_part(grant, page));
            assert(upper == upper_part(grant, page));
            assert forall|q: Page|
                covering(#[trigger] self@.update(r - 1, lower).insert(r as int, upper), q)
                    == if lower.covers(q) {
                    Some(lower)
                } else if upper.covers(q) {
                    Some(upper)
                } else {
                    covering(self@, q)
                } by {
                lemma_split_lookup(self@, r - 1, page, q);
            }
            lemma_split_lookup(self@, r - 1, page, page);
        }
        self.grants[r - 1] = lower;
        self.grants.insert(r, upper);
        Some((lower, upper))
    }
}

} // verus!
