//! The raw persistent region — a single byte-addressable memory that is
//! grown in whole pages and read or written by offset ranges — and the
//! region manager, which partitions it into a fixed number of
//! independently growable virtual regions that can never overlap.
use vstd::prelude::*;
use crate::Error;
use crate::PAGE_SIZE;
use crate::spec_pages_for;
use crate::pages_for;

verus! {

/// Number of virtual regions the manager carves out of the raw region.
pub const NUM_REGIONS: u64 = 8;

/// Fixed page capacity of each virtual region (16 MiB of table
/// space). A model constant standing in for the host's far larger
/// limit; growth past it is the fatal allocation error of the region
/// contract.
pub const REGION_CAP_PAGES: u64 = 256;

/// Page capacity of the whole raw region: every virtual region at full
/// capacity.
pub const RAW_MAX_PAGES: u64 = 2048;

/// Byte capacity of the whole raw region.
pub const RAW_MAX_BYTES: u64 = 134217728;

/// `n` zero bytes.
pub open spec fn zero_bytes(n: int) -> Seq<u8> {
    Seq::new(n as nat, |i: int| 0u8)
}

/// The byte string `r` with `data` overlaid at `offset`.
pub open spec fn spec_write(r: Seq<u8>, offset: int, data: Seq<u8>) -> Seq<u8> {
    Seq::new(
        r.len(),
        |i: int|
            if offset <= i < offset + data.len() {
                data[i - offset]
            } else {
                r[i]
            },
    )
}

/// The host-provided single address space of byte pages.
pub struct RawRegion {
    pub bytes: Vec<u8>,
}

impl View for RawRegion {
    type V = Seq<u8>;

    open spec fn view(&self) -> Seq<u8> {
        self.bytes@
    }
}

impl RawRegion {
    /// Always a whole number of pages, within the host's limit.
    pub open spec fn wf(&self) -> bool {
        &&& self@.len() as int % (PAGE_SIZE as int) == 0
        &&& self@.len() <= RAW_MAX_BYTES
    }

    pub fn new() -> (r: RawRegion)
        ensures
            r.wf(),
            r@ == Seq::<u8>::empty(),
    {
        let r = RawRegion { bytes: Vec::new() };
        proof {
            assert(r@ =~= Seq::<u8>::empty());
        }
        r
    }

    /// Current size in bytes.
    pub fn size_bytes(&self) -> (r: u64)
        requires
            self.wf(),
        ensures
            r == self@.len(),
    {
        self.bytes.len() as u64
    }

    /// Current size in pages.
    pub fn size_pages(&self) -> (r: u64)
        requires
            self.wf(),
        ensures
            r == self@.len() as int / (PAGE_SIZE as int),
            r * PAGE_SIZE == self@.len(),
    {
        proof {
            crate::lemma_page_div(self@.len() as int);
        }
        (self.bytes.len() as u64) / PAGE_SIZE
    }

    /// Grow by whole pages, zero-filled. No partial growth: past the
    /// host limit the region is left unchanged.
    pub fn grow(&mut self, add_pages: u64) -> (r: Result<u64, Error>)
        requires
            old(self).wf(),
        ensures
            final(self).wf(),
            match r {
                Ok(prev_pages) => {
                    &&& prev_pages * PAGE_SIZE == old(self)@.len()
                    &&& old(self)@.len() + add_pages * PAGE_SIZE <= RAW_MAX_BYTES
                    &&& final(self)@ == old(self)@ + zero_bytes((add_pages * PAGE_SIZE) as int)
                },
                Err(e) => {
                    &&& e == Error::RegionFull
                    &&& final(self)@ == old(self)@
                    &&& old(self)@.len() + add_pages * PAGE_SIZE > RAW_MAX_BYTES
                },
            },
    {
        let cur_pages = self.size_pages();
        if add_pages > RAW_MAX_PAGES || cur_pages + add_pages > RAW_MAX_PAGES {
            proof {
                crate::lemma_page_mul_mono(cur_pages as int, add_pages as int);
            }
            return Err(Error::RegionFull);
        }
        let add_bytes: u64 = add_pages * PAGE_SIZE;
        let ghost prefix = self.bytes@;
        let new_len = self.bytes.len() + add_bytes as usize;
        self.bytes.resize(new_len, 0u8);
        proof {
            assert forall|i: int| 0 <= i < self.bytes@.len() implies self.bytes@[i] == (
            prefix + zero_bytes(add_bytes as int))[i] by {
                if i < prefix.len() {
                    if prefix.len() < new_len {
                        assert(self.bytes@.subrange(0, prefix.len() as int)[i] == prefix[i]);
                    } else {
                        assert(self.bytes@ == prefix.subrange(0, new_len as int));
                        assert(prefix.subrange(0, new_len as int)[i] == prefix[i]);
                    }
                } else {
                    assert(vstd::pervasive::cloned(0u8, self.bytes@[i]));
                }
            }
            assert(self.bytes@ =~= prefix + zero_bytes(add_bytes as int));
            assert(prefix.len() == cur_pages * PAGE_SIZE);
            crate::lemma_page_sum_wf(cur_pages as int, add_pages as int);
        }
        Ok(cur_pages)
    }

    /// Read `len` bytes at `offset`; out of bounds is refused with no
    /// effect.
    pub fn read(&self, offset: u64, len: u64) -> (r: Result<Vec<u8>, Error>)
        requires
            self.wf(),
        ensures
            match r {
                Ok(v) => {
                    &&& offset + len <= self@.len()
                    &&& v@ == self@.subrange(offset as int, offset + len)
                },
                Err(e) => {
                    &&& e == Error::OutOfBounds
                    &&& offset + len > self@.len()
                },
            },
    {
        let size = self.bytes.len() as u64;
        if offset > size || len > size - offset {
            return Err(Error::OutOfBounds);
        }
        let lo = offset as usize;
        let hi = (offset + len) as usize;
        Ok(vstd::slice::slice_to_vec(vstd::slice::slice_subrange(self.bytes.as_slice(), lo, hi)))
    }

    /// Overwrite bytes strictly inside the current size; out of bounds
    /// is refused with no effect.
    pub fn write(&mut self, offset: u64, data: &Vec<u8>) -> (r: Result<(), Error>)
        requires
            old(self).wf(),
        ensures
            final(self).wf(),
            match r {
                Ok(_) => {
                    &&& offset + data@.len() <= old(self)@.len()
                    &&& final(self)@ == spec_write(old(self)@, offset as int, data@)
                },
                Err(e) => {
                    &&& e == Error::OutOfBounds
                    &&& final(self)@ == old(self)@
                    &&& offset + data@.len() > old(self)@.len()
                },
            },
    {
        let size = self.bytes.len() as u64;
        if offset > size || data.len() as u64 > size - offset {
            return Err(Error::OutOfBounds);
        }
        let lo = offset as usize;
        let hi = lo + data.len();
        let mut out: Vec<u8> = Vec::new();
        out.extend_from_slice(vstd::slice::slice_subrange(self.bytes.as_slice(), 0, lo));
        out.extend_from_slice(data.as_slice());
        out.extend_from_slice(
            vstd::slice::slice_subrange(self.bytes.as_slice(), hi, self.bytes.len()),
        );
        proof {
            assert(out@ =~= spec_write(old(self)@, offset as int, data@));
        }
        self.bytes = out;
        Ok(())
    }

    /// The size after a write at `offset` of `len` bytes that may grow
    /// the region: unchanged if the write fits, else rounded up to whole
    /// pages.
    pub open spec fn spec_grown_len(old_len: int, end: int) -> int {
        if end > old_len {
            spec_pages_for(end as u64) * PAGE_SIZE
        } else {
            old_len
        }
    }

    /// Write that grows the region as needed: when `offset + len`
    /// exceeds the current size, the region is grown to exactly
    /// `ceil((offset + len) / PAGE_SIZE)` pages; bytes below the old
    /// size and outside the written range are unchanged, and the gap, if
    /// any, is zero.
    pub fn write_growing(&mut self, offset: u64, data: &Vec<u8>) -> (r: Result<(), Error>)
        requires
            old(self).wf(),
        ensures
            final(self).wf(),
            match r {
                Ok(_) => {
                    let end = offset + data@.len();
                    &&& end <= RAW_MAX_BYTES
                    &&& final(self)@.len() == Self::spec_grown_len(old(self)@.len() as int, end)
                    &&& final(self)@.subrange(offset as int, end) == data@
                    &&& forall|i: int|
                        0 <= i < old(self)@.len() && !(offset <= i < end) ==> final(self)@[i]
                            == old(self)@[i]
                    &&& forall|i: int|
                        old(self)@.len() <= i < final(self)@.len() && !(offset <= i < end)
                            ==> final(self)@[i] == 0
                },
                Err(e) => {
                    &&& e == Error::RegionFull
                    &&& final(self)@ == old(self)@
                    &&& offset + data@.len() > RAW_MAX_BYTES
                },
            },
    {
        if offset > RAW_MAX_BYTES || data.len() as u64 > RAW_MAX_BYTES - offset {
            return Err(Error::RegionFull);
        }
        let end: u64 = offset + data.len() as u64;
        let size = self.bytes.len() as u64;
        let ghost mid = self@;
        if end > size {
            let need_pages = pages_for(end);
            let cur_pages = self.size_pages();
            proof {
                crate::lemma_page_div(size as int);
                crate::lemma_pages_for_mono(size, end);
            }
            match self.grow(need_pages - cur_pages) {
                Ok(_) => {
                    proof {
                        crate::lemma_page_mul_dist(cur_pages as int, (need_pages - cur_pages) as int);
                    }
                },
                Err(_) => {
                    proof {
                        assert(false);
                    }
                    return Err(Error::RegionFull);
                },
            }
        }
        let ghost grown = self@;
        match self.write(offset, data) {
            Ok(_) => {
                proof {
                    assert(forall|i: int|
                        0 <= i < old(self)@.len() ==> grown[i] == old(self)@[i]);
                    assert(final(self)@.subrange(offset as int, end as int) =~= data@);
                }
                Ok(())
            },
            Err(_) => {
                proof {
                    assert(false);
                }
                Err(Error::RegionFull)
            },
        }
    }
}

// ------------------------------------------------------------------
// The region manager.
// ------------------------------------------------------------------
/// Byte capacity of one virtual region.
pub const REGION_CAP_BYTES: u64 = 16777216;

/// First byte of virtual region `id` within the raw region.
pub open spec fn vm_base(id: int) -> int {
    id * (REGION_CAP_BYTES as int)
}

/// Partitions the raw region into `NUM_REGIONS` virtual regions of
/// `REGION_CAP_PAGES` pages each, identified by a small integer id.
/// Each grows independently; their byte ranges can never overlap.
pub struct RegionManager {
    pub vm_pages: Vec<u64>,
}

impl RegionManager {
    pub open spec fn wf(&self) -> bool {
        &&& self.vm_pages@.len() == NUM_REGIONS
        &&& forall|id: int|
            0 <= id < NUM_REGIONS ==> #[trigger] self.vm_pages@[id] <= REGION_CAP_PAGES
    }

    /// Every allocated virtual region's range lies inside the raw
    /// region.
    pub open spec fn covered(&self, region: Seq<u8>) -> bool {
        forall|id: int|
            0 <= id < NUM_REGIONS && #[trigger] self.vm_pages@[id] > 0 ==> vm_base(id)
                + self.vm_pages@[id] * PAGE_SIZE <= region.len()
    }

    /// The bytes a virtual region currently owns; an unallocated one
    /// owns none.
    pub open spec fn vm_view(&self, region: Seq<u8>, id: int) -> Seq<u8> {
        if self.vm_pages@[id] == 0 {
            Seq::<u8>::empty()
        } else {
            region.subrange(vm_base(id), vm_base(id) + self.vm_pages@[id] * PAGE_SIZE)
        }
    }

    pub fn new() -> (r: RegionManager)
        ensures
            r.wf(),
            forall|id: int| 0 <= id < NUM_REGIONS ==> #[trigger] r.vm_pages@[id] == 0,
    {
        let mut v: Vec<u64> = Vec::new();
        let mut i: u64 = 0;
        while i < NUM_REGIONS
            invariant
                i <= NUM_REGIONS,
                v@.len() == i,
                forall|id: int| 0 <= id < i ==> #[trigger] v@[id] == 0,
            decreases NUM_REGIONS - i,
        {
            v.push(0u64);
            i += 1;
        }
        RegionManager { vm_pages: v }
    }

    /// Current size of one virtual region, in bytes.
    pub fn vm_size_bytes(&self, id: usize) -> (r: u64)
        requires
            self.wf(),
            id < NUM_REGIONS,
        ensures
            r == self.vm_pages@[id as int] * PAGE_SIZE,
    {
        self.vm_pages[id] * PAGE_SIZE
    }

    /// Grow one virtual region by whole pages, zero-filled, growing the
    /// raw region underneath as needed. Past the virtual region's fixed
    /// capacity nothing changes.
    pub fn vm_grow(&mut self, region: &mut RawRegion, id: usize, add: u64) -> (r: Result<
        u64,
        Error,
    >)
        requires
            old(self).wf(),
            old(region).wf(),
            old(self).covered(old(region)@),
            id < NUM_REGIONS,
        ensures
            final(self).wf(),
            final(region).wf(),
            final(self).covered(final(region)@),
            match r {
                Ok(prev) => {
                    &&& prev == old(self).vm_pages@[id as int]
                    &&& prev + add <= REGION_CAP_PAGES
                    &&& final(self).vm_pages@ == old(self).vm_pages@.update(
                        id as int,
                        (prev + add) as u64,
                    )
                    &&& final(region)@.len() >= old(region)@.len()
                    &&& forall|i: int|
                        0 <= i < old(region)@.len() ==> final(region)@[i] == old(region)@[i]
                    &&& forall|i: int|
                        old(region)@.len() <= i < final(region)@.len() ==> final(region)@[i] == 0
                },
                Err(e) => {
                    &&& e == Error::RegionFull
                    &&& final(self).vm_pages@ == old(self).vm_pages@
                    &&& final(region)@ == old(region)@
                    &&& old(self).vm_pages@[id as int] + add > REGION_CAP_PAGES
                },
            },
    {
        let cur: u64 = self.vm_pages[id];
        if add > REGION_CAP_PAGES || cur + add > REGION_CAP_PAGES {
            return Err(Error::RegionFull);
        }
        let new_count = cur + add;
        let needed_pages: u64 = (id as u64) * REGION_CAP_PAGES + new_count;
        let raw_pages = region.size_pages();
        if needed_pages > raw_pages {
            match region.grow(needed_pages - raw_pages) {
                Ok(_) => {
                    proof {
                        crate::lemma_page_mul_dist(
                            raw_pages as int,
                            (needed_pages - raw_pages) as int,
                        );
                    }
                },
                Err(_) => {
                    proof {
                        crate::lemma_page_sum_wf(raw_pages as int, (needed_pages
                            - raw_pages) as int);
                        assert(false);
                    }
                },
            }
        }
        let prev = self.vm_pages.remove(id);
        self.vm_pages.insert(id, new_count);
        proof {
            assert(final(self).vm_pages@ =~= old(self).vm_pages@.update(
                id as int,
                new_count,
            ));
            assert(final(self).covered(final(region)@)) by {
                assert(vm_base(id as int) + new_count * PAGE_SIZE <= final(region)@.len()) by {
                    lemma_slot_math(id as int, new_count as int);
                }
            }
        }
        Ok(prev)
    }

    /// Read from one virtual region; confined to its current size.
    pub fn vm_read(&self, region: &RawRegion, id: usize, offset: u64, len: u64) -> (r: Result<
        Vec<u8>,
        Error,
    >)
        requires
            self.wf(),
            region.wf(),
            self.covered(region@),
            id < NUM_REGIONS,
        ensures
            match r {
                Ok(v) => {
                    &&& offset + len <= self.vm_pages@[id as int] * PAGE_SIZE
                    &&& v@ == region@.subrange(
                        vm_base(id as int) + offset,
                        vm_base(id as int) + offset + len,
                    )
                },
                Err(e) => {
                    &&& e == Error::OutOfBounds
                    &&& (offset + len > self.vm_pages@[id as int] * PAGE_SIZE
                        || self.vm_pages@[id as int] == 0)
                },
            },
    {
        let vm_size = self.vm_size_bytes(id);
        if vm_size == 0 || offset > vm_size || len > vm_size - offset {
            return Err(Error::OutOfBounds);
        }
        let abs: u64 = (id as u64) * REGION_CAP_BYTES + offset;
        proof {
            lemma_slot_math(id as int, self.vm_pages@[id as int] as int);
        }
        match region.read(abs, len) {
            Ok(v) => Ok(v),
            Err(_) => {
                proof {
                    assert(false);
                }
                Err(Error::OutOfBounds)
            },
        }
    }

    /// Write into one virtual region; confined to its current size, so
    /// no other virtual region's bytes can change.
    pub fn vm_write(&self, region: &mut RawRegion, id: usize, offset: u64, data: &Vec<u8>) -> (r:
        Result<(), Error>)
        requires
            self.wf(),
            old(region).wf(),
            self.covered(old(region)@),
            id < NUM_REGIONS,
        ensures
            final(region).wf(),
            self.covered(final(region)@),
            match r {
                Ok(_) => {
                    &&& offset + data@.len() <= self.vm_pages@[id as int] * PAGE_SIZE
                    &&& final(region)@ == spec_write(
                        old(region)@,
                        vm_base(id as int) + offset,
                        data@,
                    )
                    &&& final(region)@.len() == old(region)@.len()
                    &&& forall|i: int|
                        0 <= i < old(region)@.len() && !(vm_base(id as int) <= i < vm_base(
                            id as int,
                        ) + REGION_CAP_BYTES) ==> final(region)@[i] == old(region)@[i]
                },
                Err(e) => {
                    &&& e == Error::OutOfBounds
                    &&& final(region)@ == old(region)@
                    &&& (offset + data@.len() > self.vm_pages@[id as int] * PAGE_SIZE
                        || self.vm_pages@[id as int] == 0)
                },
            },
    {
        let vm_size = self.vm_size_bytes(id);
        if vm_size == 0 || offset > vm_size || data.len() as u64 > vm_size - offset {
            return Err(Error::OutOfBounds);
        }
        let abs: u64 = (id as u64) * REGION_CAP_BYTES + offset;
        proof {
            lemma_slot_math(id as int, self.vm_pages@[id as int] as int);
        }
        match region.write(abs, data) {
            Ok(_) => {
                proof {
                    assert(forall|i: int|
                        0 <= i < old(region)@.len() && !(vm_base(id as int) <= i < vm_base(
                            id as int,
                        ) + REGION_CAP_BYTES) ==> final(region)@[i] == old(region)@[i]);
                }
                Ok(())
            },
            Err(_) => {
                proof {
                    assert(false);
                }
                Err(Error::OutOfBounds)
            },
        }
    }
}

/// Distinct virtual regions own disjoint byte ranges of the raw region:
/// whatever one region's operations change, another region's contents
/// are untouched.
pub proof fn lemma_vm_isolation(
    mgr0: RegionManager,
    mgr1: RegionManager,
    r0: Seq<u8>,
    r1: Seq<u8>,
    id: int,
    id2: int,
)
    requires
        mgr0.wf(),
        mgr1.wf(),
        0 <= id < NUM_REGIONS,
        0 <= id2 < NUM_REGIONS,
        id != id2,
        mgr1.vm_pages@[id2] == mgr0.vm_pages@[id2],
        mgr0.covered(r0),
        r1.len() >= r0.len(),
        forall|i: int|
            0 <= i < r0.len() && !(vm_base(id) <= i < vm_base(id) + REGION_CAP_BYTES) ==> r1[i]
                == r0[i],
    ensures
        mgr1.vm_view(r1, id2) == mgr0.vm_view(r0, id2),
{
    lemma_slot_math(id2, mgr0.vm_pages@[id2] as int);
    if mgr0.vm_pages@[id2] == 0 {
        assert(mgr1.vm_view(r1, id2) =~= mgr0.vm_view(r0, id2));
        return ;
    }
    assert(mgr1.vm_view(r1, id2) =~= mgr0.vm_view(r0, id2)) by {
        assert forall|j: int| 0 <= j < mgr0.vm_pages@[id2] * PAGE_SIZE implies #[trigger] r1[vm_base(
            id2,
        ) + j] == r0[vm_base(id2) + j] by {
            let i = vm_base(id2) + j;
            assert(!(vm_base(id) <= i < vm_base(id) + REGION_CAP_BYTES)) by {
                if id2 < id {
                    assert(vm_base(id2) + REGION_CAP_BYTES <= vm_base(id));
                } else {
                    assert(vm_base(id) + REGION_CAP_BYTES <= vm_base(id2));
                }
            }
        }
    }
}

/// Slot arithmetic: one virtual region's full range fits its slot, and
/// every slot fits the raw region.
pub proof fn lemma_slot_math(id: int, count: int)
    requires
        0 <= id < NUM_REGIONS,
        0 <= count <= REGION_CAP_PAGES,
    ensures
        count * PAGE_SIZE <= REGION_CAP_BYTES,
        vm_base(id) + REGION_CAP_BYTES <= RAW_MAX_BYTES,
        vm_base(id) >= 0,
{
    assert(0 <= count <= 256 ==> count * 65536 <= 16777216) by (nonlinear_arith);
    assert(0 <= id < 8 ==> id * 16777216 + 16777216 <= 134217728) by (nonlinear_arith);
}

} // verus!
