use vstd::prelude::*;
use std::collections::HashMap;

verus! {

broadcast use vstd::std_specs::hash::group_hash_axioms;

/// The size of a page, in bytes.
pub const PAGE_SIZE: usize = 4096;

/// Permission bits of a mapped page.
pub const PERM_R: u8 = 2;
pub const PERM_W: u8 = 4;
pub const PERM_X: u8 = 8;
pub const PERM_U: u8 = 16;

/// The page that holds address `va`.
pub open spec fn page_floor(va: nat) -> nat {
    va / (PAGE_SIZE as nat)
}

/// The first page at or after address `va`.
pub open spec fn page_ceil(va: nat) -> nat {
    ((va + PAGE_SIZE - 1) / (PAGE_SIZE as int)) as nat
}

/// The page that holds address `va`.
pub fn floor(va: usize) -> (vpn: usize)
    ensures
        vpn == page_floor(va as nat),
{
    va / PAGE_SIZE
}

/// The first page at or after address `va`.
pub fn ceil(va: usize) -> (vpn: usize)
    ensures
        vpn == page_ceil(va as nat),
{
    if va % PAGE_SIZE == 0 {
        va / PAGE_SIZE
    } else {
        va / PAGE_SIZE + 1
    }
}

/// The bytes of a user buffer that the kernel can reach through the
/// calling task's page table, laid out in address order.
pub struct UserBuffer {
    pub bytes: Vec<u8>,
}

impl View for UserBuffer {
    type V = Seq<u8>;

    open spec fn view(&self) -> Seq<u8> {
        self.bytes@
    }
}

impl UserBuffer {
    pub fn new(bytes: Vec<u8>) -> (b: Self)
        ensures
            b@ == bytes@,
    {
        UserBuffer { bytes }
    }

    pub fn len(&self) -> (n: usize)
        ensures
            n == self@.len(),
    {
        self.bytes.len()
    }
}

/// The pages a task mapped for itself at run time, each with its permission bits.
pub struct MemorySet {
    pub pages: HashMap<usize, u8>,
}

/// Whether some page in `[start_vpn, end_vpn)` is mapped in `pages`.
pub open spec fn any_mapped(pages: Map<usize, u8>, start_vpn: nat, end_vpn: nat) -> bool {
    exists|vpn: usize| start_vpn <= vpn < end_vpn && #[trigger] pages.contains_key(vpn)
}

/// Whether every page in `[start_vpn, end_vpn)` is mapped in `pages`.
pub open spec fn all_mapped(pages: Map<usize, u8>, start_vpn: nat, end_vpn: nat) -> bool {
    forall|vpn: usize| start_vpn <= vpn < end_vpn ==> #[trigger] pages.contains_key(vpn)
}

/// `pages` with every page of `[start_vpn, end_vpn)` mapped with `perm`.
pub open spec fn with_range(pages: Map<usize, u8>, start_vpn: nat, end_vpn: nat, perm: u8) -> Map<
    usize,
    u8,
> {
    Map::new(
        |vpn: usize| pages.contains_key(vpn) || (start_vpn <= vpn < end_vpn),
        |vpn: usize|
            if start_vpn <= vpn < end_vpn {
                perm
            } else {
                pages[vpn]
            },
    )
}

/// `pages` with every page of `[start_vpn, end_vpn)` unmapped.
pub open spec fn without_range(pages: Map<usize, u8>, start_vpn: nat, end_vpn: nat) -> Map<
    usize,
    u8,
> {
    pages.restrict(Set::new(|vpn: usize| !(start_vpn <= vpn < end_vpn)))
}

impl View for MemorySet {
    type V = Map<usize, u8>;

    open spec fn view(&self) -> Map<usize, u8> {
        self.pages@
    }
}

impl MemorySet {
    /// A memory set with no page mapped.
    pub fn new() -> (m: Self)
        ensures
            m@ == Map::<usize, u8>::empty(),
    {
        MemorySet { pages: HashMap::new() }
    }

    /// A copy of this memory set.
    pub fn copy(&self) -> (m: Self)
        ensures
            m@ == self@,
    {
        MemorySet { pages: self.pages.clone() }
    }

    /// Maps the pages from the one holding `start_va` up to the one holding the
    /// byte before `end_va`, all with `perm`, unless one of them is mapped already;
    /// then nothing changes and the result is `Err`.
    pub fn insert_framed_area(&mut self, start_va: usize, end_va: usize, perm: u8) -> (r: Result<
        (),
        (),
    >)
        ensures
            r is Err <==> any_mapped(old(self)@, page_floor(start_va as nat), page_ceil(end_va as nat)),
            r is Ok ==> final(self)@ == with_range(
                old(self)@,
                page_floor(start_va as nat),
                page_ceil(end_va as nat),
                perm,
            ),
            r is Err ==> *final(self) == *old(self),
    {
        let start_vpn = floor(start_va);
        let end_vpn = ceil(end_va);
        let mut vpn = start_vpn;
        while vpn < end_vpn
            invariant
                start_vpn <= vpn,
                vpn <= end_vpn || vpn == start_vpn,
                self@.dom().finite(),
                self@ == old(self)@,
                start_vpn == page_floor(start_va as nat),
                end_vpn == page_ceil(end_va as nat),
                forall|v: usize| start_vpn <= v < vpn ==> !#[trigger] self@.contains_key(v),
            decreases end_vpn - vpn,
        {
            if self.pages.contains_key(&vpn) {
                assert(old(self)@.contains_key(vpn));
                assert(any_mapped(old(self)@, start_vpn as nat, end_vpn as nat));
                return Err(());
            }
            vpn = vpn + 1;
        }
        let ghost old_pages = self@;
        let mut vpn = start_vpn;
        while vpn < end_vpn
            invariant
                start_vpn <= vpn,
                vpn <= end_vpn || vpn == start_vpn,
                self@.dom().finite(),
                self@ == with_range(old_pages, start_vpn as nat, vpn as nat, perm),
            decreases end_vpn - vpn,
        {
            let ghost prev = self@;
            self.pages.insert(vpn, perm);
            assert(self@ == prev.insert(vpn, perm));
            proof {
                assert(self@ =~= with_range(old_pages, start_vpn as nat, (vpn + 1) as nat, perm));
            }
            vpn = vpn + 1;
        }
        proof {
            assert(with_range(old_pages, start_vpn as nat, vpn as nat, perm).dom() =~= with_range(old_pages, start_vpn as nat, end_vpn as nat, perm).dom());
            assert(self@ =~= with_range(old_pages, start_vpn as nat, end_vpn as nat, perm));
        }
        Ok(())
    }

    /// Unmaps the pages from the one holding `start_va` up to the one holding the
    /// byte before `end_va`, unless one of them is not mapped; then nothing changes
    /// and the result is `Err`.
    pub fn remove_framed_area(&mut self, start_va: usize, end_va: usize) -> (r: Result<(), ()>)
        ensures
            r is Ok <==> all_mapped(old(self)@, page_floor(start_va as nat), page_ceil(end_va as nat)),
            r is Ok ==> final(self)@ == without_range(
                old(self)@,
                page_floor(start_va as nat),
                page_ceil(end_va as nat),
            ),
            r is Err ==> *final(self) == *old(self),
    {
        let start_vpn = floor(start_va);
        let end_vpn = ceil(end_va);
        let mut vpn = start_vpn;
        while vpn < end_vpn
            invariant
                start_vpn <= vpn,
                vpn <= end_vpn || vpn == start_vpn,
                self@.dom().finite(),
                self@ == old(self)@,
                start_vpn == page_floor(start_va as nat),
                end_vpn == page_ceil(end_va as nat),
                forall|v: usize| start_vpn <= v < vpn ==> #[trigger] self@.contains_key(v),
            decreases end_vpn - vpn,
        {
            if !self.pages.contains_key(&vpn) {
                assert(!old(self)@.contains_key(vpn));
                assert(!all_mapped(old(self)@, start_vpn as nat, end_vpn as nat));
                return Err(());
            }
            vpn = vpn + 1;
        }
        let ghost old_pages = self@;
        let mut vpn = start_vpn;
        while vpn < end_vpn
            invariant
                start_vpn <= vpn,
                vpn <= end_vpn || vpn == start_vpn,
                self@.dom().finite(),
                self@ == without_range(old_pages, start_vpn as nat, vpn as nat),
            decreases end_vpn - vpn,
        {
            self.pages.remove(&vpn);
            proof {
                assert(self@ =~= without_range(old_pages, start_vpn as nat, (vpn + 1) as nat));
            }
            vpn = vpn + 1;
        }
        proof {
            assert(without_range(old_pages, start_vpn as nat, vpn as nat).dom() =~= without_range(old_pages, start_vpn as nat, end_vpn as nat).dom());
            assert(self@ =~= without_range(old_pages, start_vpn as nat, end_vpn as nat));
        }
        Ok(())
    }
}

/// An address lies in the page `page_floor` names, and `page_ceil` names the
/// first page boundary at or after it.
pub proof fn page_rounding(va: nat)
    ensures
        page_floor(va) * 4096 <= va < page_floor(va) * 4096 + 4096,
        va <= page_ceil(va) * 4096 < va + 4096,
        va % 4096 == 0 ==> page_ceil(va) * 4096 == va && page_floor(va) == page_ceil(va),
{
}

/// Mapping an area adds exactly its pages, each with the given permission,
/// and keeps every other page as it was; unmapping an area removes exactly
/// its pages and keeps every other page as it was.
pub proof fn area_changes_only_its_pages(pages: Map<usize, u8>, start_vpn: nat, end_vpn: nat, perm: u8)
    ensures
        forall|vpn: usize|
            #[trigger] with_range(pages, start_vpn, end_vpn, perm).contains_key(vpn) == (
            pages.contains_key(vpn) || (start_vpn <= vpn < end_vpn)),
        forall|vpn: usize|
            start_vpn <= vpn < end_vpn ==> #[trigger] with_range(pages, start_vpn, end_vpn, perm)[vpn]
                == perm,
        forall|vpn: usize|
            !(start_vpn <= vpn < end_vpn) && pages.contains_key(vpn) ==> #[trigger] with_range(
                pages,
                start_vpn,
                end_vpn,
                perm,
            )[vpn] == pages[vpn],
        forall|vpn: usize|
            #[trigger] without_range(pages, start_vpn, end_vpn).contains_key(vpn) == (
            pages.contains_key(vpn) && !(start_vpn <= vpn < end_vpn)),
        forall|vpn: usize|
            #[trigger] without_range(pages, start_vpn, end_vpn).contains_key(vpn) ==> without_range(
                pages,
                start_vpn,
                end_vpn,
            )[vpn] == pages[vpn],
{
}

/// Unmapping an area that was just mapped, where nothing was mapped before,
/// gives back the pages as they were.
pub proof fn unmap_undoes_map(pages: Map<usize, u8>, start_vpn: nat, end_vpn: nat, perm: u8)
    requires
        !any_mapped(pages, start_vpn, end_vpn),
    ensures
        all_mapped(with_range(pages, start_vpn, end_vpn, perm), start_vpn, end_vpn),
        without_range(with_range(pages, start_vpn, end_vpn, perm), start_vpn, end_vpn) == pages,
{
    let after = without_range(with_range(pages, start_vpn, end_vpn, perm), start_vpn, end_vpn);
    assert forall|vpn: usize| #[trigger] pages.contains_key(vpn) implies !(start_vpn <= vpn < end_vpn) by {
        if start_vpn <= vpn < end_vpn {
            assert(any_mapped(pages, start_vpn, end_vpn));
        }
    }
    assert(after.dom() =~= pages.dom());
    assert(after =~= pages);
}

/// A page can be mapped only once: mapping a non-empty area again fails.
pub proof fn map_twice_conflicts(pages: Map<usize, u8>, start_vpn: usize, end_vpn: nat, perm: u8)
    requires
        start_vpn < end_vpn,
    ensures
        any_mapped(with_range(pages, start_vpn as nat, end_vpn, perm), start_vpn as nat, end_vpn),
{
    assert(with_range(pages, start_vpn as nat, end_vpn, perm).contains_key(start_vpn));
}

/// Unmapping an area leaves none of its pages mapped, so unmapping it again fails.
pub proof fn unmap_twice_fails(pages: Map<usize, u8>, start_vpn: usize, end_vpn: nat)
    requires
        start_vpn < end_vpn,
    ensures
        !all_mapped(without_range(pages, start_vpn as nat, end_vpn), start_vpn as nat, end_vpn),
{
    assert(!without_range(pages, start_vpn as nat, end_vpn).contains_key(start_vpn));
}

} // verus!
