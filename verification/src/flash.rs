//! Firmware upload planning.
//!
//! Flashing an image runs a strict sequence: claim exclusive access,
//! leave execute-in-place, erase every planned region, then write every
//! page.  The erase plan comes from the erase planner; this module
//! turns the image's sparse payload into the exact page-sized writes,
//! padding a short tail with the erased-flash fill value so unwritten
//! bytes read back as erased.  Progress is reported against two
//! independent totals — erased bytes and written bytes — never a
//! combined one.

use vstd::prelude::*;
use vstd::arithmetic::div_mod::*;
use crate::image::Uf2File;
use crate::boot::FLASH_PAGE_SIZE;

verus! {

/// Value an erased flash byte reads back as, and the fill for a padded
/// tail.
pub const ERASED_FILL: u8 = 0xFF;

/// Which running total a progress report advances.
#[derive(Clone, Copy, Debug)]
pub enum ProgressKind {
    Erase,
    Write,
}

/// One full page starting at page `j` of a payload: the payload bytes
/// there, padded to a page with the erased-flash fill value.
pub open spec fn spec_padded_page(data: Seq<u8>, j: int) -> Seq<u8> {
    let end = if (j + 1) * FLASH_PAGE_SIZE <= data.len() {
        (j + 1) * FLASH_PAGE_SIZE
    } else {
        data.len() as int
    };
    data.subrange(j * FLASH_PAGE_SIZE, end) + Seq::new(
        (j * FLASH_PAGE_SIZE + FLASH_PAGE_SIZE - end) as nat,
        |q: int| ERASED_FILL,
    )
}

/// The page-sized writes covering one payload block.
pub open spec fn spec_page_chunks(addr: u32, data: Seq<u8>) -> Seq<(u32, Seq<u8>)> {
    Seq::new(
        ((data.len() + FLASH_PAGE_SIZE - 1) / (FLASH_PAGE_SIZE as int)) as nat,
        |j: int| (((addr + j * FLASH_PAGE_SIZE) as u32), spec_padded_page(data, j)),
    )
}

/// The page-sized writes covering the first `n` entries of an image,
/// in address order.
pub open spec fn spec_write_plan(entries: Seq<(u32, Seq<u8>)>, n: int) -> Seq<(u32, Seq<u8>)>
    decreases n,
{
    if n <= 0 {
        Seq::empty()
    } else {
        spec_write_plan(entries, n - 1) + spec_page_chunks(entries[n - 1].0, entries[n - 1].1)
    }
}

/// Split one payload block into page-sized writes, padding the tail
/// with the erased-flash fill value.
#[verifier::spinoff_prover]
#[verifier::rlimit(50)]
pub fn page_chunks(addr: u32, data: &Vec<u8>) -> (r: Vec<(u32, Vec<u8>)>)
    requires
        addr as int + data@.len() <= 0x1_0000_0000,
    ensures
        r@.map_values(|e: (u32, Vec<u8>)| (e.0, e.1@)) == spec_page_chunks(addr, data@),
        forall|j: int| 0 <= j < r@.len() ==> (#[trigger] r@[j]).1@.len() == FLASH_PAGE_SIZE,
{
    let n = data.len();
    let mut r: Vec<(u32, Vec<u8>)> = Vec::new();
    let page = FLASH_PAGE_SIZE as usize;
    let mut off: usize = 0;
    while off < n
        invariant
            n == data@.len(),
            addr as int + n as int <= 0x1_0000_0000,
            page == FLASH_PAGE_SIZE,
            off == r@.len() * page || off == n,
            off < n ==> off == r@.len() * page,
            off == n ==> n <= r@.len() * page,
            r@.len() == 0 || (r@.len() - 1) * page < n,
            forall|j: int|
                0 <= j < r@.len() ==> (#[trigger] r@[j]).0 == (addr + j * page) as u32
                    && r@[j].1@ == spec_padded_page(data@, j) && r@[j].1@.len() == page,
        decreases n - off,
    {
        let start = off;
        let end = if n - start >= page {
            start + page
        } else {
            n
        };
        let mut chunk = vstd::slice::slice_to_vec(
            vstd::slice::slice_subrange(data.as_slice(), start, end),
        );
        let ghost raw = chunk@;
        while chunk.len() < page
            invariant
                raw.len() <= chunk@.len() <= page,
                chunk@.take(raw.len() as int) == raw,
                forall|q: int| raw.len() <= q < chunk@.len() ==> chunk@[q] == ERASED_FILL,
            decreases page - chunk@.len(),
        {
            chunk.push(ERASED_FILL);
            assert(chunk@.take(raw.len() as int) =~= raw);
        }
        proof {
            let l = r@.len() as int;
            assert(l * page == start as int);
            assert(chunk@ =~= spec_padded_page(data@, l));
            assert(addr as int + start as int <= u32::MAX as int);
        }
        let chunk_addr = addr + start as u32;
        let ghost prev = r@;
        r.push((chunk_addr, chunk));
        proof {
            let l = prev.len() as int;
            assert(r@[l].0 == (addr + l * page) as u32);
            assert(forall|j: int| 0 <= j < l ==> r@[j] == prev[j]);
        }
        off = end;
    }
    proof {
        assert(r@.map_values(|e: (u32, Vec<u8>)| (e.0, e.1@)) =~= spec_page_chunks(addr, data@));
    }
    r
}

impl Uf2File {
    /// The exact page-sized writes that flash this image, entry by
    /// entry in address order.
    pub fn flash_write_plan(&self) -> (r: Vec<(u32, Vec<u8>)>)
        requires
            forall|i: int|
                0 <= i < self.entries().len() ==> (#[trigger] self.entries()[i]).0
                    + self.entries()[i].1.len() <= 0x1_0000_0000,
        ensures
            r@.map_values(|e: (u32, Vec<u8>)| (e.0, e.1@)) == spec_write_plan(
                self.entries(),
                self.entries().len() as int,
            ),
            forall|j: int| 0 <= j < r@.len() ==> (#[trigger] r@[j]).1@.len() == FLASH_PAGE_SIZE,
    {
        let ghost entries = self.entries();
        let mut r: Vec<(u32, Vec<u8>)> = Vec::new();
        let mut i: usize = 0;
        while i < self.blocks.len()
            invariant
                entries == self.entries(),
                forall|t: int|
                    0 <= t < entries.len() ==> (#[trigger] entries[t]).0 + entries[t].1.len()
                        <= 0x1_0000_0000,
                0 <= i <= entries.len(),
                r@.map_values(|e: (u32, Vec<u8>)| (e.0, e.1@)) == spec_write_plan(
                    entries,
                    i as int,
                ),
                forall|j: int| 0 <= j < r@.len() ==> (#[trigger] r@[j]).1@.len() == FLASH_PAGE_SIZE,
            decreases entries.len() - i,
        {
            let addr = self.blocks[i].0;
            proof {
                assert(entries[i as int] == (self.blocks@[i as int].0, self.blocks@[i as int].1@));
            }
            let mut chunks = page_chunks(addr, &self.blocks[i].1);
            let ghost prev = r@;
            let ghost chunk_views = chunks@.map_values(|e: (u32, Vec<u8>)| (e.0, e.1@));
            r.append(&mut chunks);
            proof {
                assert(r@.map_values(|e: (u32, Vec<u8>)| (e.0, e.1@)) =~= prev.map_values(
                    |e: (u32, Vec<u8>)| (e.0, e.1@),
                ) + chunk_views);
            }
            i = i + 1;
        }
        r
    }
}

/// Sum of the region sizes of an erase plan.
pub open spec fn spec_sum_sizes(regions: Seq<(u32, u32)>) -> int
    decreases regions.len(),
{
    if regions.len() == 0 {
        0
    } else {
        spec_sum_sizes(regions.drop_last()) + regions.last().1
    }
}

/// Total bytes an erase plan will erase: the denominator for erase
/// progress, independent of the write total.
pub fn total_erase_bytes(regions: &Vec<(u32, u32)>) -> (r: u64)
    requires
        spec_sum_sizes(regions@) <= u64::MAX,
    ensures
        r == spec_sum_sizes(regions@),
{
    let mut sum: u64 = 0;
    let mut i: usize = 0;
    while i < regions.len()
        invariant
            0 <= i <= regions@.len(),
            sum == spec_sum_sizes(regions@.take(i as int)),
            spec_sum_sizes(regions@) <= u64::MAX,
        decreases regions@.len() - i,
    {
        proof {
            lemma_sum_sizes_take_step(regions@, i as int);
            lemma_sum_sizes_prefix_le(regions@, i as int + 1);
        }
        sum = sum + regions[i].1 as u64;
        i = i + 1;
    }
    proof {
        assert(regions@.take(i as int) =~= regions@);
    }
    sum
}

/// Taking one more region adds its size to the running sum.
proof fn lemma_sum_sizes_take_step(regions: Seq<(u32, u32)>, i: int)
    requires
        0 <= i < regions.len(),
    ensures
        spec_sum_sizes(regions.take(i + 1)) == spec_sum_sizes(regions.take(i)) + regions[i].1,
{
    assert(regions.take(i + 1).drop_last() =~= regions.take(i));
    assert(regions.take(i + 1).last() == regions[i]);
}

/// A prefix sum never exceeds the whole sum.
proof fn lemma_sum_sizes_prefix_le(regions: Seq<(u32, u32)>, i: int)
    requires
        0 <= i <= regions.len(),
    ensures
        spec_sum_sizes(regions.take(i)) <= spec_sum_sizes(regions),
    decreases regions.len() - i,
{
    if i < regions.len() {
        lemma_sum_sizes_take_step(regions, i);
        lemma_sum_sizes_prefix_le(regions, i + 1);
    } else {
        assert(regions.take(i) =~= regions);
    }
}

} // verus!
