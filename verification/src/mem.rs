//! Per-task virtual address spaces: the framed areas inserted and removed by
//! `mmap`/`munmap`, and the program-break segment moved by `sbrk`.
//!
//! Areas are recorded as half-open ranges of virtual page numbers. The
//! address space is well formed when every area covers at least one page,
//! no two areas share a page, and the program break sits between the heap
//! bottom and the top of the user address range.

use crate::MAX_VA;
use vstd::prelude::*;

verus! {

/// One mapped region of user memory: a half-open range of virtual page
/// numbers together with its permission bits (bit0 read, bit1 write,
/// bit2 execute, bit3 user-accessible).
#[derive(Clone, Copy, PartialEq, Eq, Structural, Debug)]
pub struct MapArea {
    pub start_vpn: usize,
    pub end_vpn: usize,
    pub perm: u8,
}

impl MapArea {
    /// A well-formed area covers at least one page.
    pub open spec fn wf(self) -> bool {
        self.start_vpn < self.end_vpn
    }
}

/// Two half-open page ranges share no page.
pub open spec fn ranges_disjoint(s1: usize, e1: usize, s2: usize, e2: usize) -> bool {
    e1 <= s2 || e2 <= s1
}

/// No recorded area shares a page with the range `[start_vpn, end_vpn)`.
pub open spec fn range_free(areas: Seq<MapArea>, start_vpn: usize, end_vpn: usize) -> bool {
    forall|i: int|
        0 <= i < areas.len() ==> ranges_disjoint(
            areas[i].start_vpn,
            areas[i].end_vpn,
            start_vpn,
            end_vpn,
        )
}

/// `areas[j]` is exactly the range `[start_vpn, end_vpn)`.
pub open spec fn is_exact_area(areas: Seq<MapArea>, j: int, start_vpn: usize, end_vpn: usize) -> bool {
    &&& 0 <= j < areas.len()
    &&& areas[j].start_vpn == start_vpn
    &&& areas[j].end_vpn == end_vpn
}

/// Some recorded area is exactly the range `[start_vpn, end_vpn)`.
pub open spec fn has_exact_area(areas: Seq<MapArea>, start_vpn: usize, end_vpn: usize) -> bool {
    exists|j: int| is_exact_area(areas, j, start_vpn, end_vpn)
}

/// The part of a task's address space that this core mutates directly.
pub struct AddressSpace {
    pub areas: Vec<MapArea>,
    pub heap_bottom: usize,
    pub program_brk: usize,
}

impl AddressSpace {
    /// Every area is non-empty, areas are pairwise disjoint, and the program
    /// break stays within `[heap_bottom, MAX_VA]`.
    pub open spec fn wf(self) -> bool {
        &&& forall|i: int| 0 <= i < self.areas@.len() ==> self.areas@[i].wf()
        &&& forall|i: int, j: int|
            0 <= i < j < self.areas@.len() ==> ranges_disjoint(
                self.areas@[i].start_vpn,
                self.areas@[i].end_vpn,
                self.areas@[j].start_vpn,
                self.areas@[j].end_vpn,
            )
        &&& self.heap_bottom <= self.program_brk
        &&& self.program_brk <= MAX_VA
    }

    /// An empty address space with nothing mapped and an empty heap.
    pub fn new() -> (r: Self)
        ensures
            r.wf(),
            r.areas@ == Seq::<MapArea>::empty(),
            r.heap_bottom == 0,
            r.program_brk == 0,
    {
        let r = AddressSpace { areas: Vec::new(), heap_bottom: 0, program_brk: 0 };
        proof {
            assert(r.areas@ =~= Seq::<MapArea>::empty());
        }
        r
    }

    /// An exact copy of this address space, as a full address-space
    /// duplication during `fork` would produce.
    pub fn duplicate(&self) -> (r: Self)
        ensures
            r.areas@ == self.areas@,
            r.heap_bottom == self.heap_bottom,
            r.program_brk == self.program_brk,
    {
        let mut areas: Vec<MapArea> = Vec::new();
        let mut i: usize = 0;
        while i < self.areas.len()
            invariant
                i <= self.areas@.len(),
                areas@ == self.areas@.subrange(0, i as int),
            decreases self.areas@.len() - i,
        {
            areas.push(self.areas[i]);
            i += 1;
            proof {
                assert(areas@ =~= self.areas@.subrange(0, i as int));
            }
        }
        proof {
            assert(areas@ =~= self.areas@);
        }
        AddressSpace { areas, heap_bottom: self.heap_bottom, program_brk: self.program_brk }
    }

    /// Inserts the framed area `[start_vpn, end_vpn)` if it overlaps nothing
    /// already mapped; on failure the address space is left untouched.
    pub fn insert_framed_area(&mut self, start_vpn: usize, end_vpn: usize, perm: u8) -> (ok: bool)
        requires
            old(self).wf(),
            start_vpn < end_vpn,
        ensures
            final(self).wf(),
            ok <==> range_free(old(self).areas@, start_vpn, end_vpn),
            ok ==> final(self).areas@ == old(self).areas@.push(
                (MapArea { start_vpn, end_vpn, perm }),
            ),
            ok ==> final(self).heap_bottom == old(self).heap_bottom
                && final(self).program_brk == old(self).program_brk,
            !ok ==> *final(self) == *old(self),
    {
        let mut i: usize = 0;
        while i < self.areas.len()
            invariant
                *self == *old(self),
                old(self).wf(),
                i <= self.areas@.len(),
                forall|l: int|
                    0 <= l < i ==> ranges_disjoint(
                        self.areas@[l].start_vpn,
                        self.areas@[l].end_vpn,
                        start_vpn,
                        end_vpn,
                    ),
            decreases self.areas@.len() - i,
        {
            let a = self.areas[i];
            if !(a.end_vpn <= start_vpn || end_vpn <= a.start_vpn) {
                return false;
            }
            i += 1;
        }
        self.areas.push(MapArea { start_vpn, end_vpn, perm });
        true
    }

    /// Removes the area that is exactly `[start_vpn, end_vpn)`; fails and
    /// leaves the address space untouched when no area matches in full.
    pub fn unmap_area(&mut self, start_vpn: usize, end_vpn: usize) -> (ok: bool)
        requires
            old(self).wf(),
        ensures
            final(self).wf(),
            ok <==> has_exact_area(old(self).areas@, start_vpn, end_vpn),
            ok ==> exists|j: int|
                is_exact_area(old(self).areas@, j, start_vpn, end_vpn)
                    && final(self).areas@ == old(self).areas@.remove(j),
            ok ==> final(self).heap_bottom == old(self).heap_bottom
                && final(self).program_brk == old(self).program_brk,
            !ok ==> *final(self) == *old(self),
    {
        let mut i: usize = 0;
        while i < self.areas.len()
            invariant
                *self == *old(self),
                old(self).wf(),
                i <= self.areas@.len(),
                forall|l: int| 0 <= l < i ==> !is_exact_area(self.areas@, l, start_vpn, end_vpn),
            decreases self.areas@.len() - i,
        {
            let a = self.areas[i];
            if a.start_vpn == start_vpn && a.end_vpn == end_vpn {
                let ghost j = i as int;
                let _ = self.areas.remove(i);
                proof {
                    assert(is_exact_area(old(self).areas@, j, start_vpn, end_vpn));
                    assert forall|x: int, y: int|
                        0 <= x < y < self.areas@.len() implies ranges_disjoint(
                        self.areas@[x].start_vpn,
                        self.areas@[x].end_vpn,
                        self.areas@[y].start_vpn,
                        self.areas@[y].end_vpn,
                    ) by {
                        let ox = if x < j { x } else { x + 1 };
                        let oy = if y < j { y } else { y + 1 };
                        assert(self.areas@[x] == old(self).areas@[ox]);
                        assert(self.areas@[y] == old(self).areas@[oy]);
                    }
                }
                return true;
            }
            i += 1;
        }
        false
    }

    /// Moves the program break by `size` bytes and reports the old break;
    /// fails without any change when the new break would sink below the heap
    /// bottom or climb past the top of the user address range.
    pub fn change_program_brk(&mut self, size: i32) -> (r: Option<usize>)
        requires
            old(self).wf(),
        ensures
            final(self).wf(),
            r is Some <==> old(self).heap_bottom <= old(self).program_brk + size
                && old(self).program_brk + size <= MAX_VA,
            r is Some ==> r == Some(old(self).program_brk)
                && final(self).program_brk == old(self).program_brk + size
                && final(self).heap_bottom == old(self).heap_bottom
                && final(self).areas@ == old(self).areas@,
            r is None ==> *final(self) == *old(self),
    {
        let old_brk = self.program_brk;
        if size >= 0 {
            let inc = size as usize;
            if inc <= MAX_VA - old_brk {
                self.program_brk = old_brk + inc;
                Some(old_brk)
            } else {
                None
            }
        } else {
            let dec = (-(size as i64)) as usize;
            if dec <= old_brk && self.heap_bottom <= old_brk - dec {
                self.program_brk = old_brk - dec;
                Some(old_brk)
            } else {
                None
            }
        }
    }
}

/// A successful `mmap` immediately followed by `munmap` of the same page
/// range restores the address space to exactly the areas it held before:
/// the freshly pushed area is the only one that matches the range in full,
/// and removing it undoes the push.
pub proof fn lemma_map_unmap_round_trip(
    areas: Seq<MapArea>,
    start_vpn: usize,
    end_vpn: usize,
    perm: u8,
)
    requires
        start_vpn < end_vpn,
        range_free(areas, start_vpn, end_vpn),
    ensures
        ({
            let pushed = areas.push(MapArea { start_vpn, end_vpn, perm });
            &&& has_exact_area(pushed, start_vpn, end_vpn)
            &&& forall|j: int|
                is_exact_area(pushed, j, start_vpn, end_vpn) ==> pushed.remove(j) =~= areas
        }),
{
    let pushed = areas.push(MapArea { start_vpn, end_vpn, perm });
    assert(is_exact_area(pushed, areas.len() as int, start_vpn, end_vpn));
    assert forall|j: int|
        is_exact_area(pushed, j, start_vpn, end_vpn) implies pushed.remove(j) =~= areas by {
        if j < areas.len() {
            assert(ranges_disjoint(areas[j].start_vpn, areas[j].end_vpn, start_vpn, end_vpn));
        }
        assert(j == areas.len());
    }
}

} // verus!
