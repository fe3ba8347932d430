//! A model of a task's address space: the framed areas it has mapped, the
//! root of its page table, and a counter of free physical frames.
use vstd::prelude::*;
use crate::config::PAGE_SIZE;

verus! {

/// Page number holding the virtual address `va` (rounding down).
pub open spec fn vpn_floor(va: int) -> int {
    va / (PAGE_SIZE as int)
}

/// First page number at or above the virtual address `va` (rounding up).
pub open spec fn vpn_ceil(va: int) -> int {
    if va <= 0 {
        0
    } else {
        (va - 1) / (PAGE_SIZE as int) + 1
    }
}

/// The page table token written to `satp` for a page table rooted at `root_ppn`
/// (Sv39 mode in the top four bits).
pub open spec fn satp_token(root_ppn: int) -> int {
    0x8000_0000_0000_0000 + root_ppn
}

/// Bound on physical page numbers under Sv39 (they have 44 bits).
pub open spec fn ppn_limit() -> int {
    0x1000_0000_0000
}

/// The page number of an address is the page whose bytes hold it:
/// `vpn_floor(va) * PAGE_SIZE <= va < (vpn_floor(va) + 1) * PAGE_SIZE`.
pub proof fn lemma_vpn_floor_bounds(va: int)
    requires
        va >= 0,
    ensures
        vpn_floor(va) >= 0,
        vpn_floor(va) * PAGE_SIZE <= va < (vpn_floor(va) + 1) * PAGE_SIZE,
{
}

/// Rounding up gives the least page boundary at or above the address: `vpn_ceil(0) == 0`,
/// and for `va > 0`, `(vpn_ceil(va) - 1) * PAGE_SIZE < va <= vpn_ceil(va) * PAGE_SIZE`.
pub proof fn lemma_vpn_ceil_bounds(va: int)
    requires
        va >= 0,
    ensures
        va == 0 ==> vpn_ceil(va) == 0,
        va > 0 ==> (vpn_ceil(va) - 1) * PAGE_SIZE < va <= vpn_ceil(va) * PAGE_SIZE,
        vpn_ceil(va) >= 0,
{
}

/// Rounds a virtual address down to its page number.
pub fn va_floor(va: usize) -> (vpn: usize)
    ensures
        vpn == vpn_floor(va as int),
        vpn * PAGE_SIZE <= va < (vpn + 1) * PAGE_SIZE,
{
    proof {
        lemma_vpn_floor_bounds(va as int);
    }
    va / PAGE_SIZE
}

/// Rounds a virtual address up to a page number.
pub fn va_ceil(va: usize) -> (vpn: usize)
    ensures
        vpn == vpn_ceil(va as int),
        va == 0 ==> vpn == 0,
        va > 0 ==> (vpn - 1) * PAGE_SIZE < va <= vpn * PAGE_SIZE,
{
    proof {
        lemma_vpn_ceil_bounds(va as int);
    }
    if va == 0 {
        0
    } else {
        (va - 1) / PAGE_SIZE + 1
    }
}

/// Access rights of a mapped area.
#[derive(Clone, Copy, PartialEq, Eq, Structural, Debug)]
pub struct MapPermission {
    pub readable: bool,
    pub writable: bool,
    pub executable: bool,
    pub user: bool,
}

/// The permission that the `port` argument of `mmap` asks for: bit 0 reads,
/// bit 1 writes, bit 2 executes; user access is always granted.
pub open spec fn port_permission(port: usize) -> MapPermission {
    MapPermission {
        readable: port & 1 != 0,
        writable: port & 2 != 0,
        executable: port & 4 != 0,
        user: true,
    }
}

/// The permission that `mmap` asks for with `port` reads exactly when bit 0 is set,
/// writes exactly when bit 1 is set, executes exactly when bit 2 is set, and always
/// grants user access.
pub proof fn lemma_port_permission_bits(port: usize)
    ensures
        port_permission(port).readable == (port & 1 != 0),
        port_permission(port).writable == (port & 2 != 0),
        port_permission(port).executable == (port & 4 != 0),
        port_permission(port).user,
{
}

impl MapPermission {
    /// Builds the user permission that an `mmap` port value asks for.
    pub fn from_port(port: usize) -> (perm: Self)
        ensures
            perm == port_permission(port),
            perm.readable == (port & 1 != 0),
            perm.writable == (port & 2 != 0),
            perm.executable == (port & 4 != 0),
            perm.user,
    {
        let mut perm = MapPermission { readable: false, writable: false, executable: false, user: true };
        if port & 0b001 != 0 {
            perm.readable = true;
        }
        if port & 0b010 != 0 {
            perm.writable = true;
        }
        if port & 0b100 != 0 {
            perm.executable = true;
        }
        perm
    }

    /// The bits of this permission in a page table entry (R = 2, W = 4, X = 8, U = 16).
    pub fn bits(&self) -> (b: u8)
        ensures
            b == (if self.readable { 2int } else { 0 }) + (if self.writable { 4int } else { 0 }) + (
            if self.executable { 8int } else { 0 }) + (if self.user { 16int } else { 0 }),
    {
        let mut b: u8 = 0;
        if self.readable {
            b = b + 2;
        }
        if self.writable {
            b = b + 4;
        }
        if self.executable {
            b = b + 8;
        }
        if self.user {
            b = b + 16;
        }
        b
    }
}

/// A contiguous range of virtual pages `[start_vpn, end_vpn)` mapped with one permission.
#[derive(Clone, Copy, PartialEq, Eq, Structural, Debug)]
pub struct MapArea {
    pub start_vpn: usize,
    pub end_vpn: usize,
    pub perm: MapPermission,
}

impl MapArea {
    pub open spec fn contains(self, vpn: int) -> bool {
        self.start_vpn <= vpn < self.end_vpn
    }
}

/// Whether some area of `areas` maps the page `vpn`.
pub open spec fn areas_map(areas: Seq<MapArea>, vpn: int) -> bool {
    exists|i: int| 0 <= i < areas.len() && (#[trigger] areas[i]).contains(vpn)
}

/// Whether every page of `[lo, hi)` is mapped by `areas`.
pub open spec fn range_mapped(areas: Seq<MapArea>, lo: int, hi: int) -> bool {
    forall|vpn: int| lo <= vpn < hi ==> #[trigger] areas_map(areas, vpn)
}

/// Whether no page of `[lo, hi)` is mapped by `areas`.
pub open spec fn range_unmapped(areas: Seq<MapArea>, lo: int, hi: int) -> bool {
    forall|vpn: int| lo <= vpn < hi ==> !#[trigger] areas_map(areas, vpn)
}

/// Whether `area` spans exactly the pages `[start_vpn, end_vpn)`.
pub open spec fn area_spans(area: MapArea, start_vpn: int, end_vpn: int) -> bool {
    area.start_vpn == start_vpn && area.end_vpn == end_vpn
}

/// Index of the first area of `areas` spanning exactly `[start_vpn, end_vpn)`, or -1.
pub open spec fn first_spanning(areas: Seq<MapArea>, start_vpn: int, end_vpn: int) -> int
    decreases areas.len(),
{
    if areas.len() == 0 {
        -1
    } else {
        let k = first_spanning(areas.drop_last(), start_vpn, end_vpn);
        if k >= 0 {
            k
        } else if area_spans(areas.last(), start_vpn, end_vpn) {
            areas.len() - 1
        } else {
            -1
        }
    }
}

/// Index of the first area of `areas` that starts at page `start_vpn`, or -1.
pub open spec fn first_starting(areas: Seq<MapArea>, start_vpn: int) -> int
    decreases areas.len(),
{
    if areas.len() == 0 {
        -1
    } else {
        let k = first_starting(areas.drop_last(), start_vpn);
        if k >= 0 {
            k
        } else if areas.last().start_vpn == start_vpn {
            areas.len() - 1
        } else {
            -1
        }
    }
}

/// `first_spanning` is the least index of an area with the given bounds.
pub proof fn lemma_first_spanning(areas: Seq<MapArea>, start_vpn: int, end_vpn: int)
    ensures
        ({
            let k = first_spanning(areas, start_vpn, end_vpn);
            &&& -1 <= k < areas.len()
            &&& k >= 0 ==> area_spans(areas[k], start_vpn, end_vpn)
            &&& forall|j: int|
                0 <= j < areas.len() && (k < 0 || j < k) ==> !area_spans(
                    #[trigger] areas[j],
                    start_vpn,
                    end_vpn,
                )
        }),
    decreases areas.len(),
{
    if areas.len() > 0 {
        lemma_first_spanning(areas.drop_last(), start_vpn, end_vpn);
        let k = first_spanning(areas.drop_last(), start_vpn, end_vpn);
        assert forall|j: int| 0 <= j < areas.len() - 1 implies #[trigger] areas[j]
            == areas.drop_last()[j] by {}
    }
}

/// `first_starting` is the least index of an area starting at the given page.
pub proof fn lemma_first_starting(areas: Seq<MapArea>, start_vpn: int)
    ensures
        ({
            let k = first_starting(areas, start_vpn);
            &&& -1 <= k < areas.len()
            &&& k >= 0 ==> areas[k].start_vpn == start_vpn
            &&& forall|j: int|
                0 <= j < areas.len() && (k < 0 || j < k) ==> (#[trigger] areas[j]).start_vpn
                    != start_vpn
        }),
    decreases areas.len(),
{
    if areas.len() > 0 {
        lemma_first_starting(areas.drop_last(), start_vpn);
        assert forall|j: int| 0 <= j < areas.len() - 1 implies #[trigger] areas[j]
            == areas.drop_last()[j] by {}
    }
}

/// No page belongs to two areas of `areas`.
pub open spec fn areas_disjoint(areas: Seq<MapArea>) -> bool {
    forall|i: int, j: int, vpn: int|
        0 <= i < areas.len() && 0 <= j < areas.len() && i != j && #[trigger] areas[i].contains(vpn)
            ==> !#[trigger] areas[j].contains(vpn)
}

/// Adding an area over pages that no area maps keeps the areas disjoint.
pub proof fn lemma_disjoint_push(areas: Seq<MapArea>, area: MapArea)
    requires
        areas_disjoint(areas),
        range_unmapped(areas, area.start_vpn as int, area.end_vpn as int),
    ensures
        areas_disjoint(areas.push(area)),
{
    let new_areas = areas.push(area);
    assert forall|i: int, j: int, vpn: int|
        0 <= i < new_areas.len() && 0 <= j < new_areas.len() && i != j
            && #[trigger] new_areas[i].contains(vpn) implies !#[trigger] new_areas[j].contains(
        vpn,
    ) by {
        if i == areas.len() {
            if new_areas[j].contains(vpn) {
                assert(new_areas[j] == areas[j]);
                assert(areas_map(areas, vpn));
            }
        } else if j == areas.len() {
            assert(new_areas[i] == areas[i]);
            assert(areas_map(areas, vpn));
        } else {
            assert(new_areas[i] == areas[i]);
            assert(new_areas[j] == areas[j]);
        }
    }
}

/// Removing an area keeps the areas disjoint; afterwards none of its pages is mapped,
/// and every other page is mapped exactly when it was before.
pub proof fn lemma_disjoint_remove(areas: Seq<MapArea>, k: int)
    requires
        areas_disjoint(areas),
        0 <= k < areas.len(),
    ensures
        areas_disjoint(areas.remove(k)),
        range_unmapped(areas.remove(k), areas[k].start_vpn as int, areas[k].end_vpn as int),
        forall|vpn: int|
            !areas[k].contains(vpn) ==> #[trigger] areas_map(areas.remove(k), vpn) == areas_map(
                areas,
                vpn,
            ),
{
    let r = areas.remove(k);
    assert forall|i: int| 0 <= i < r.len() implies #[trigger] r[i] == areas[if i < k {
        i
    } else {
        i + 1
    }] by {}
    assert forall|i: int, j: int, vpn: int|
        0 <= i < r.len() && 0 <= j < r.len() && i != j && #[trigger] r[i].contains(vpn) implies !#[trigger] r[j].contains(
        vpn,
    ) by {
        let ii = if i < k {
            i
        } else {
            i + 1
        };
        let jj = if j < k {
            j
        } else {
            j + 1
        };
        assert(r[i] == areas[ii]);
        assert(r[j] == areas[jj]);
    }
    assert forall|vpn: int|
        areas[k].start_vpn <= vpn < areas[k].end_vpn implies !#[trigger] areas_map(r, vpn) by {
        assert(areas[k].contains(vpn));
        if areas_map(r, vpn) {
            let i = choose|i: int| 0 <= i < r.len() && (#[trigger] r[i]).contains(vpn);
            let ii = if i < k {
                i
            } else {
                i + 1
            };
            assert(r[i] == areas[ii]);
        }
    }
    assert forall|vpn: int| !areas[k].contains(vpn) implies #[trigger] areas_map(r, vpn)
        == areas_map(areas, vpn) by {
        if areas_map(r, vpn) {
            let i = choose|i: int| 0 <= i < r.len() && (#[trigger] r[i]).contains(vpn);
            let ii = if i < k {
                i
            } else {
                i + 1
            };
            assert(r[i] == areas[ii]);
        }
        if areas_map(areas, vpn) {
            let i = choose|i: int| 0 <= i < areas.len() && (#[trigger] areas[i]).contains(vpn);
            assert(i != k);
            let ii = if i < k {
                i
            } else {
                i - 1
            };
            assert(r[ii] == areas[i]);
        }
    }
}

/// Moving the end of area `k` keeps the areas disjoint, provided no area maps the pages
/// between its old end and its new one.
pub proof fn lemma_disjoint_set_end(areas: Seq<MapArea>, k: int, end_vpn: usize)
    requires
        areas_disjoint(areas),
        0 <= k < areas.len(),
        range_unmapped(areas, areas[k].end_vpn as int, end_vpn as int),
    ensures
        areas_disjoint(areas.update(k, MapArea { end_vpn, ..areas[k] })),
{
    let new_areas = areas.update(k, MapArea { end_vpn, ..areas[k] });
    assert forall|i: int, j: int, vpn: int|
        0 <= i < new_areas.len() && 0 <= j < new_areas.len() && i != j
            && #[trigger] new_areas[i].contains(vpn) implies !#[trigger] new_areas[j].contains(
        vpn,
    ) by {
        if i == k {
            assert(new_areas[j] == areas[j]);
            if new_areas[j].contains(vpn) {
                if vpn < areas[k].end_vpn {
                    assert(areas[k].contains(vpn));
                } else {
                    assert(areas_map(areas, vpn));
                }
            }
        } else if j == k {
            assert(new_areas[i] == areas[i]);
            if new_areas[j].contains(vpn) {
                if vpn < areas[k].end_vpn {
                    assert(areas[k].contains(vpn));
                } else {
                    assert(areas_map(areas, vpn));
                }
            }
        } else {
            assert(new_areas[i] == areas[i]);
            assert(new_areas[j] == areas[j]);
        }
    }
}

/// Two lists of areas that start at the same pages have the same first area starting at
/// any given page.
pub proof fn lemma_first_starting_same_starts(a: Seq<MapArea>, b: Seq<MapArea>, start_vpn: int)
    requires
        a.len() == b.len(),
        forall|i: int| 0 <= i < a.len() ==> (#[trigger] a[i]).start_vpn == b[i].start_vpn,
    ensures
        first_starting(a, start_vpn) == first_starting(b, start_vpn),
    decreases a.len(),
{
    if a.len() > 0 {
        assert forall|i: int| 0 <= i < a.len() - 1 implies (#[trigger] a.drop_last()[i]).start_vpn
            == b.drop_last()[i].start_vpn by {
            assert(a.drop_last()[i] == a[i]);
            assert(b.drop_last()[i] == b[i]);
        }
        lemma_first_starting_same_starts(a.drop_last(), b.drop_last(), start_vpn);
    }
}

/// Adding an area at the end does not change which area is the first to start at a page
/// where some area already starts.
pub proof fn lemma_first_starting_push(areas: Seq<MapArea>, area: MapArea, start_vpn: int)
    requires
        first_starting(areas, start_vpn) >= 0,
    ensures
        first_starting(areas.push(area), start_vpn) == first_starting(areas, start_vpn),
{
    assert(areas.push(area).drop_last() =~= areas);
}

/// The address space of one task: the framed areas it maps and the physical
/// page number of its page table's root.
pub struct MemorySet {
    pub root_ppn: usize,
    pub areas: Vec<MapArea>,
}

impl View for MemorySet {
    type V = Seq<MapArea>;

    open spec fn view(&self) -> Seq<MapArea> {
        self.areas@
    }
}

impl MemorySet {
    /// The root page number fits the Sv39 physical page number field, and no page
    /// belongs to two areas.
    pub open spec fn wf(&self) -> bool {
        &&& self.root_ppn < ppn_limit()
        &&& areas_disjoint(self@)
    }

    /// An address space with no areas whose page table is rooted at `root_ppn`.
    pub fn new(root_ppn: usize) -> (ms: Self)
        ensures
            ms.root_ppn == root_ppn,
            ms@ == Seq::<MapArea>::empty(),
    {
        MemorySet { root_ppn, areas: Vec::new() }
    }

    /// A copy of this address space.
    pub fn duplicate(&self) -> (ms: Self)
        ensures
            ms.root_ppn == self.root_ppn,
            ms@ == self@,
    {
        let mut areas: Vec<MapArea> = Vec::new();
        let mut i: usize = 0;
        while i < self.areas.len()
            invariant
                i <= self.areas.len(),
                areas@ == self.areas@.take(i as int),
            decreases self.areas.len() - i,
        {
            areas.push(self.areas[i]);
            i = i + 1;
            assert(areas@ =~= self.areas@.take(i as int));
        }
        assert(areas@ =~= self.areas@);
        MemorySet { root_ppn: self.root_ppn, areas }
    }

    /// The `satp` token selecting this address space's page table.
    pub fn token(&self) -> (token: u64)
        requires
            self.wf(),
        ensures
            token == satp_token(self.root_ppn as int),
    {
        let ppn: u64 = self.root_ppn as u64;
        assert((8u64 << 60u64) | ppn == 0x8000_0000_0000_0000u64 + ppn) by (bit_vector)
            requires
                ppn < 0x1000_0000_0000u64,
        ;
        (8u64 << 60u64) | ppn
    }

    /// Whether some area maps the page `vpn`.
    pub fn is_pte_valid(&self, vpn: usize) -> (valid: bool)
        ensures
            valid == areas_map(self@, vpn as int),
    {
        let mut i: usize = 0;
        while i < self.areas.len()
            invariant
                i <= self.areas.len(),
                forall|j: int| 0 <= j < i ==> !(#[trigger] self.areas@[j]).contains(vpn as int),
            decreases self.areas.len() - i,
        {
            let area = self.areas[i];
            if area.start_vpn <= vpn && vpn < area.end_vpn {
                assert(self.areas@[i as int].contains(vpn as int));
                return true;
            }
            i = i + 1;
        }
        false
    }

    /// Whether no area maps any page of `[lo, hi)`.
    pub fn pages_unmapped(&self, lo: usize, hi: usize) -> (unmapped: bool)
        ensures
            unmapped == range_unmapped(self@, lo as int, hi as int),
    {
        let mut vpn = lo;
        while vpn < hi
            invariant
                lo <= vpn,
                lo < hi ==> vpn <= hi,
                forall|v: int| lo <= v < vpn ==> !#[trigger] areas_map(self@, v),
            decreases hi - vpn,
        {
            if self.is_pte_valid(vpn) {
                return false;
            }
            vpn = vpn + 1;
        }
        true
    }

    /// Adds the area from the page of `start_va` up to the page that holds `end_va`'s last byte.
    pub fn insert_framed_area(&mut self, start_va: usize, end_va: usize, perm: MapPermission)
        ensures
            final(self).root_ppn == old(self).root_ppn,
            final(self)@ == old(self)@.push(
                MapArea {
                    start_vpn: vpn_floor(start_va as int) as usize,
                    end_vpn: vpn_ceil(end_va as int) as usize,
                    perm,
                },
            ),
            old(self).wf() && range_unmapped(
                old(self)@,
                vpn_floor(start_va as int),
                vpn_ceil(end_va as int),
            ) ==> final(self).wf(),
    {
        let area = MapArea { start_vpn: va_floor(start_va), end_vpn: va_ceil(end_va), perm };
        proof {
            if old(self).wf() && range_unmapped(old(self)@, area.start_vpn as int, area.end_vpn as int) {
                lemma_disjoint_push(old(self)@, area);
            }
        }
        self.areas.push(area);
    }

    /// Index of the first area spanning exactly `[start_vpn, end_vpn)`, if any.
    fn find_spanning(&self, start_vpn: usize, end_vpn: usize) -> (found: Option<usize>)
        ensures
            match found {
                Some(i) => i < self@.len() && i as int == first_spanning(self@, start_vpn as int, end_vpn as int),
                None => first_spanning(self@, start_vpn as int, end_vpn as int) == -1,
            },
    {
        proof {
            lemma_first_spanning(self@, start_vpn as int, end_vpn as int);
        }
        let mut i: usize = 0;
        while i < self.areas.len()
            invariant
                i <= self.areas.len(),
                forall|j: int|
                    0 <= j < i ==> !area_spans(
                        #[trigger] self.areas@[j],
                        start_vpn as int,
                        end_vpn as int,
                    ),
                ({
                    let k = first_spanning(self@, start_vpn as int, end_vpn as int);
                    &&& -1 <= k < self@.len()
                    &&& k >= 0 ==> area_spans(self@[k], start_vpn as int, end_vpn as int)
                    &&& forall|j: int|
                        0 <= j < self@.len() && (k < 0 || j < k) ==> !area_spans(
                            #[trigger] self@[j],
                            start_vpn as int,
                            end_vpn as int,
                        )
                }),
            decreases self.areas.len() - i,
        {
            let area = self.areas[i];
            if area.start_vpn == start_vpn && area.end_vpn == end_vpn {
                return Some(i);
            }
            i = i + 1;
        }
        None
    }

    /// Index of the first area starting at page `start_vpn`, if any.
    pub fn find_starting(&self, start_vpn: usize) -> (found: Option<usize>)
        ensures
            match found {
                Some(i) => i < self@.len() && i as int == first_starting(self@, start_vpn as int),
                None => first_starting(self@, start_vpn as int) == -1,
            },
    {
        proof {
            lemma_first_starting(self@, start_vpn as int);
        }
        let mut i: usize = 0;
        while i < self.areas.len()
            invariant
                i <= self.areas.len(),
                forall|j: int| 0 <= j < i ==> (#[trigger] self.areas@[j]).start_vpn != start_vpn,
                ({
                    let k = first_starting(self@, start_vpn as int);
                    &&& -1 <= k < self@.len()
                    &&& k >= 0 ==> self@[k].start_vpn == start_vpn
                    &&& forall|j: int|
                        0 <= j < self@.len() && (k < 0 || j < k) ==> (#[trigger] self@[j]).start_vpn
                            != start_vpn
                }),
            decreases self.areas.len() - i,
        {
            if self.areas[i].start_vpn == start_vpn {
                return Some(i);
            }
            i = i + 1;
        }
        None
    }

    /// Removes the first area spanning exactly the pages of `[start_va, start_va + len)`;
    /// says whether there was one.
    pub fn remove_area(&mut self, start_va: usize, len: usize) -> (removed: bool)
        requires
            start_va + len <= usize::MAX,
        ensures
            final(self).root_ppn == old(self).root_ppn,
            ({
                let k = first_spanning(
                    old(self)@,
                    vpn_floor(start_va as int),
                    vpn_ceil(start_va + len),
                );
                &&& removed == (k >= 0)
                &&& removed ==> final(self)@ == old(self)@.remove(k)
                &&& !removed ==> final(self)@ == old(self)@
            }),
            old(self).wf() ==> final(self).wf(),
    {
        let start_vpn = va_floor(start_va);
        let end_vpn = va_ceil(start_va + len);
        match self.find_spanning(start_vpn, end_vpn) {
            Some(i) => {
                proof {
                    if old(self).wf() {
                        lemma_disjoint_remove(old(self)@, i as int);
                    }
                }
                self.areas.remove(i);
                true
            },
            None => false,
        }
    }

    /// Moves the end of the first area starting at the page of `start_va` to the page
    /// boundary at or above `new_end`; says whether there was such an area.
    fn set_area_end(&mut self, start_va: usize, new_end: usize) -> (found: bool)
        ensures
            final(self).root_ppn == old(self).root_ppn,
            ({
                let k = first_starting(old(self)@, vpn_floor(start_va as int));
                &&& found == (k >= 0)
                &&& found ==> final(self)@ == old(self)@.update(
                    k,
                    MapArea { end_vpn: vpn_ceil(new_end as int) as usize, ..old(self)@[k] },
                )
                &&& !found ==> final(self)@ == old(self)@
                &&& old(self).wf() && (k >= 0 ==> range_unmapped(
                    old(self)@,
                    old(self)@[k].end_vpn as int,
                    vpn_ceil(new_end as int),
                )) ==> final(self).wf()
            }),
    {
        let start_vpn = va_floor(start_va);
        match self.find_starting(start_vpn) {
            Some(i) => {
                let area = self.areas[i];
                let end_vpn = va_ceil(new_end);
                proof {
                    if old(self).wf() && range_unmapped(old(self)@, area.end_vpn as int, end_vpn as int) {
                        lemma_disjoint_set_end(old(self)@, i as int, end_vpn);
                    }
                }
                self.areas.set(i, MapArea { end_vpn, ..area });
                true
            },
            None => false,
        }
    }

    /// Shrinks the area starting at the page of `start_va` so that it ends at the page
    /// boundary at or above `new_end`; says whether there was such an area.
    pub fn shrink_to(&mut self, start_va: usize, new_end: usize) -> (found: bool)
        ensures
            final(self).root_ppn == old(self).root_ppn,
            ({
                let k = first_starting(old(self)@, vpn_floor(start_va as int));
                &&& found == (k >= 0)
                &&& found ==> final(self)@ == old(self)@.update(
                    k,
                    MapArea { end_vpn: vpn_ceil(new_end as int) as usize, ..old(self)@[k] },
                )
                &&& !found ==> final(self)@ == old(self)@
                &&& old(self).wf() && (k >= 0 ==> range_unmapped(
                    old(self)@,
                    old(self)@[k].end_vpn as int,
                    vpn_ceil(new_end as int),
                )) ==> final(self).wf()
            }),
    {
        self.set_area_end(start_va, new_end)
    }

    /// Extends the area starting at the page of `start_va` so that it ends at the page
    /// boundary at or above `new_end`; says whether there was such an area.
    pub fn append_to(&mut self, start_va: usize, new_end: usize) -> (found: bool)
        ensures
            final(self).root_ppn == old(self).root_ppn,
            ({
                let k = first_starting(old(self)@, vpn_floor(start_va as int));
                &&& found == (k >= 0)
                &&& found ==> final(self)@ == old(self)@.update(
                    k,
                    MapArea { end_vpn: vpn_ceil(new_end as int) as usize, ..old(self)@[k] },
                )
                &&& !found ==> final(self)@ == old(self)@
                &&& old(self).wf() && (k >= 0 ==> range_unmapped(
                    old(self)@,
                    old(self)@[k].end_vpn as int,
                    vpn_ceil(new_end as int),
                )) ==> final(self).wf()
            }),
    {
        self.set_area_end(start_va, new_end)
    }
}

/// Number of pages needed to hold `len` bytes.
pub open spec fn pages_for(len: int) -> int {
    vpn_ceil(len)
}

/// The pool of free physical frames, counted.
pub struct FrameAllocator {
    pub available: usize,
}

impl FrameAllocator {
    /// A pool holding `available` free frames.
    pub fn new(available: usize) -> (fa: Self)
        ensures
            fa.available == available,
    {
        FrameAllocator { available }
    }

    /// Whether enough frames are free to back `len` bytes.
    pub fn is_addr_space_sufficient(&self, len: usize) -> (enough: bool)
        ensures
            enough == (pages_for(len as int) <= self.available),
    {
        va_ceil(len) <= self.available
    }

    /// Takes `pages` frames out of the pool.
    pub fn take(&mut self, pages: usize)
        requires
            pages <= old(self).available,
        ensures
            final(self).available == old(self).available - pages,
    {
        self.available = self.available - pages;
    }

    /// Returns `pages` frames to the pool (the count saturates at `usize::MAX`).
    pub fn give_back(&mut self, pages: usize)
        ensures
            final(self).available == if old(self).available + pages <= usize::MAX {
                old(self).available + pages
            } else {
                usize::MAX as int
            },
    {
        self.available = self.available.saturating_add(pages);
    }
}

} // verus!
