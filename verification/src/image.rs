//! Firmware image parsing.
//!
//! Two input forms produce the same result: a block-container file of
//! fixed 512-byte self-describing blocks, and a raw binary image placed
//! at the flash base address.  Either way the result is a sparse,
//! address-ordered mapping from 32-bit target addresses to payload byte
//! blocks.  A single bad block rejects the whole file; the conditions are
//! captured by [`spec_parse_ok`] and the rejection laws below.

use vstd::prelude::*;
use vstd::bytes::*;
use vstd::slice::*;

verus! {

/// Base address at which a raw binary image is loaded.
pub const FLASH_BASE: u32 = 0x10000000;

/// Size of one container block on disk.
pub const UF2_BLOCK_SIZE: usize = 512;

/// First magic word at the start of every block.
pub const UF2_MAGIC_START0: u32 = 0x0A324655;

/// Second magic word at the start of every block.
pub const UF2_MAGIC_START1: u32 = 0x9E5D5157;

/// Magic word near the end of every block.
pub const UF2_MAGIC_END: u32 = 0x0AB16F30;

/// Family identifier of the one supported target chip.
pub const RP2040_FAMILY_ID: u32 = 0xE48BFF56;

/// Flag bit: the file-size field holds a family identifier instead.
pub const UF2_FLAG_FAMILY_ID_PRESENT: u32 = 0x00002000;

/// Largest payload a single block may claim.
pub const UF2_MAX_PAYLOAD: u32 = 476;

/// Chunk size used when splitting a raw binary image.
pub const BIN_CHUNK_SIZE: usize = 256;

/// Why a firmware file was rejected.  Rejection of any single block
/// rejects the entire parse.
#[derive(Clone, Copy, Debug, PartialEq, Eq, Structural)]
pub enum ImageError {
    /// The file size is not a multiple of the block size.
    NotBlockMultiple,
    /// The file holds no data at all.
    Empty,
    /// A block is shorter than the block size.
    BlockTooShort,
    /// A block's leading or trailing magic words mismatch.
    BadMagic,
    /// A block names a family other than the supported target.
    BadFamily,
    /// A block's index disagrees with its position in the file.
    BadBlockNumber,
    /// A block's claimed total block count disagrees with the first
    /// block's.
    BlockCountMismatch,
    /// A block claims a payload larger than a block can hold.
    PayloadTooBig,
}

/// The fixed header and trailer fields of one container block.
#[derive(Clone, Copy, Debug, PartialEq, Eq, Structural)]
pub struct Uf2Block {
    pub magic_start0: u32,
    pub magic_start1: u32,
    pub flags: u32,
    pub target_addr: u32,
    pub payload_size: u32,
    pub block_no: u32,
    pub num_blocks: u32,
    /// File size, or the family identifier when the flag bit says so.
    pub file_size: u32,
    pub magic_end: u32,
}

/// The little-endian word at a byte offset.
pub open spec fn le_word(data: Seq<u8>, off: int) -> u32 {
    spec_u32_from_le_bytes(data.subrange(off, off + 4))
}

/// The fields a 512-byte block carries.
pub open spec fn spec_parse_block(data: Seq<u8>) -> Uf2Block {
    Uf2Block {
        magic_start0: le_word(data, 0),
        magic_start1: le_word(data, 4),
        flags: le_word(data, 8),
        target_addr: le_word(data, 12),
        payload_size: le_word(data, 16),
        block_no: le_word(data, 20),
        num_blocks: le_word(data, 24),
        file_size: le_word(data, 28),
        magic_end: le_word(data, 508),
    }
}

/// Read the fields of one block.
pub fn parse_block(data: &[u8], _block_idx: usize) -> (r: Result<Uf2Block, ImageError>)
    ensures
        match r {
            Ok(b) => data@.len() >= UF2_BLOCK_SIZE && b == spec_parse_block(data@),
            Err(e) => data@.len() < UF2_BLOCK_SIZE && e == ImageError::BlockTooShort,
        },
{
    if data.len() < UF2_BLOCK_SIZE {
        return Err(ImageError::BlockTooShort);
    }
    let b = Uf2Block {
        magic_start0: u32_from_le_bytes(slice_subrange(data, 0, 4)),
        magic_start1: u32_from_le_bytes(slice_subrange(data, 4, 8)),
        flags: u32_from_le_bytes(slice_subrange(data, 8, 12)),
        target_addr: u32_from_le_bytes(slice_subrange(data, 12, 16)),
        payload_size: u32_from_le_bytes(slice_subrange(data, 16, 20)),
        block_no: u32_from_le_bytes(slice_subrange(data, 20, 24)),
        num_blocks: u32_from_le_bytes(slice_subrange(data, 24, 28)),
        file_size: u32_from_le_bytes(slice_subrange(data, 28, 32)),
        magic_end: u32_from_le_bytes(slice_subrange(data, 508, 512)),
    };
    Ok(b)
}

/// A parsed firmware image: an address-ordered sparse mapping from
/// target address to payload bytes.
#[derive(Debug)]
pub struct Uf2File {
    /// Address and payload pairs, keys unique and strictly increasing.
    pub blocks: Vec<(u32, Vec<u8>)>,
    /// Total number of blocks the file claims.
    pub block_count: u32,
    /// Family identifier, when any block carried one.
    pub family_id: Option<u32>,
}

impl Uf2File {
    /// The address and payload pairs, as mathematical sequences.
    pub open spec fn entries(&self) -> Seq<(u32, Seq<u8>)> {
        self.blocks@.map_values(|e: (u32, Vec<u8>)| (e.0, e.1@))
    }

    /// Keys are unique and strictly increasing.
    pub open spec fn wf(&self) -> bool {
        forall|i: int, j: int|
            0 <= i < j < self.entries().len() ==> self.entries()[i].0 < self.entries()[j].0
    }

    /// Some entry has this address.
    pub open spec fn contains_addr(&self, a: u32) -> bool {
        exists|i: int| 0 <= i < self.entries().len() && self.entries()[i].0 == a
    }

    /// Some entry is exactly this address and payload.
    pub open spec fn has_entry(&self, a: u32, p: Seq<u8>) -> bool {
        exists|i: int| 0 <= i < self.entries().len() && self.entries()[i] == (a, p)
    }

    /// Insert a payload at an address, keeping the entries ordered;
    /// an entry already at that address is replaced.
    #[verifier::spinoff_prover]
    #[verifier::rlimit(50)]
    fn insert_block(&mut self, addr: u32, data: Vec<u8>)
        requires
            old(self).wf(),
        ensures
            final(self).wf(),
            final(self).block_count == old(self).block_count,
            final(self).family_id == old(self).family_id,
            forall|a: u32|
                final(self).contains_addr(a) <==> (old(self).contains_addr(a) || a == addr),
            final(self).has_entry(addr, data@),
            forall|a: u32, p: Seq<u8>|
                a != addr ==> (final(self).has_entry(a, p) <==> old(self).has_entry(a, p)),
    {
        let ghost oe = old(self).entries();
        let mut idx: usize = 0;
        while idx < self.blocks.len() && self.blocks[idx].0 < addr
            invariant
                0 <= idx <= self.blocks@.len(),
                self.blocks@ == old(self).blocks@,
                self.block_count == old(self).block_count,
                self.family_id == old(self).family_id,
                forall|j: int| 0 <= j < idx ==> self.entries()[j].0 < addr,
            decreases self.blocks@.len() - idx,
        {
            idx = idx + 1;
        }
        let ghost i = idx as int;
        proof {
            assert(forall|j: int| 0 <= j < i ==> oe[j].0 < addr);
        }
        if idx < self.blocks.len() && self.blocks[idx].0 == addr {
            self.blocks.remove(idx);
            self.blocks.insert(idx, (addr, data));
            proof {
                let ne = self.entries();
                assert(ne =~= oe.update(i, (addr, data@)));
                assert(oe[i].0 == addr);
                assert forall|j: int, k: int| 0 <= j < k < ne.len() implies ne[j].0
                    < ne[k].0 by {
                    assert(oe[j].0 < oe[k].0);
                }
                assert(ne[i] == (addr, data@));
                assert forall|a: u32|
                    self.contains_addr(a) <==> (old(self).contains_addr(a) || a == addr) by {
                    if self.contains_addr(a) {
                        let j = choose|j: int| 0 <= j < ne.len() && ne[j].0 == a;
                        if j != i {
                            assert(oe[j].0 == a);
                        }
                    }
                    if old(self).contains_addr(a) {
                        let j = choose|j: int| 0 <= j < oe.len() && oe[j].0 == a;
                        if j == i {
                            assert(ne[i].0 == addr);
                        } else {
                            assert(ne[j].0 == a);
                        }
                    }
                    if a == addr {
                        assert(ne[i].0 == addr);
                    }
                }
                assert forall|a: u32, p: Seq<u8>|
                    a != addr implies (self.has_entry(a, p) <==> old(self).has_entry(a, p)) by {
                    if self.has_entry(a, p) {
                        let j = choose|j: int| 0 <= j < ne.len() && ne[j] == (a, p);
                        assert(j != i);
                        assert(oe[j] == (a, p));
                    }
                    if old(self).has_entry(a, p) {
                        let j = choose|j: int| 0 <= j < oe.len() && oe[j] == (a, p);
                        assert(j != i);
                        assert(ne[j] == (a, p));
                    }
                }
            }
        } else {
            self.blocks.insert(idx, (addr, data));
            proof {
                let ne = self.entries();
                assert(ne =~= oe.insert(i, (addr, data@)));
                oe.insert_ensures(i, (addr, data@));
                assert(i == oe.len() || oe[i].0 > addr);
                assert forall|j: int, k: int| 0 <= j < k < ne.len() implies ne[j].0
                    < ne[k].0 by {
                    if k < i {
                        assert(ne[j] == oe[j] && ne[k] == oe[k]);
                    } else if j < i && k == i {
                        assert(ne[j] == oe[j]);
                    } else if j < i && k > i {
                        assert(ne[j] == oe[j] && ne[k] == oe[k - 1]);
                        assert(j <= k - 1);
                        if j < k - 1 {
                            assert(oe[j].0 < oe[k - 1].0);
                        }
                    } else if j == i {
                        assert(ne[k] == oe[k - 1]);
                        assert(i <= k - 1 < oe.len());
                        if i < k - 1 {
                            assert(oe[i].0 < oe[k - 1].0);
                        }
                    } else {
                        assert(ne[j] == oe[j - 1] && ne[k] == oe[k - 1]);
                    }
                }
                assert(ne[i] == (addr, data@));
                assert forall|a: u32|
                    self.contains_addr(a) <==> (old(self).contains_addr(a) || a == addr) by {
                    if self.contains_addr(a) {
                        let j = choose|j: int| 0 <= j < ne.len() && ne[j].0 == a;
                        if j < i {
                            assert(oe[j].0 == a);
                        } else if j > i {
                            assert(ne[j] == oe[j - 1]);
                            assert(oe[j - 1].0 == a);
                        }
                    }
                    if old(self).contains_addr(a) {
                        let j = choose|j: int| 0 <= j < oe.len() && oe[j].0 == a;
                        if j < i {
                            assert(ne[j].0 == a);
                        } else {
                            assert(ne[j + 1] == oe[j]);
                            assert(ne[j + 1].0 == a);
                        }
                    }
                    if a == addr {
                        assert(ne[i].0 == addr);
                    }
                }
                assert forall|a: u32, p: Seq<u8>|
                    a != addr implies (self.has_entry(a, p) <==> old(self).has_entry(a, p)) by {
                    if self.has_entry(a, p) {
                        let j = choose|j: int| 0 <= j < ne.len() && ne[j] == (a, p);
                        assert(j != i);
                        if j < i {
                            assert(oe[j] == (a, p));
                        } else {
                            assert(ne[j] == oe[j - 1]);
                            assert(oe[j - 1] == (a, p));
                        }
                    }
                    if old(self).has_entry(a, p) {
                        let j = choose|j: int| 0 <= j < oe.len() && oe[j] == (a, p);
                        if j < i {
                            assert(ne[j] == (a, p));
                        } else {
                            assert(ne[j + 1] == oe[j]);
                            assert(ne[j + 1] == (a, p));
                        }
                    }
                }
            }
        }
    }

    /// Total number of payload bytes across all entries.
    pub open spec fn spec_total_bytes(&self) -> int {
        spec_len_sum(self.entries())
    }

    /// Total number of payload bytes across all entries.
    pub fn total_bytes(&self) -> (r: usize)
        requires
            self.spec_total_bytes() <= usize::MAX,
        ensures
            r == self.spec_total_bytes(),
    {
        let mut sum: usize = 0;
        let mut i: usize = 0;
        while i < self.blocks.len()
            invariant
                0 <= i <= self.entries().len(),
                sum == spec_len_sum(self.entries().take(i as int)),
                spec_len_sum(self.entries()) <= usize::MAX,
            decreases self.blocks@.len() - i,
        {
            proof {
                lemma_len_sum_take_step(self.entries(), i as int);
                lemma_len_sum_rest_nonneg(self.entries(), i as int + 1);
                assert(self.entries()[i as int].1 == self.blocks@[i as int].1@);
            }
            sum = sum + self.blocks[i].1.len();
            i = i + 1;
        }
        proof {
            assert(self.entries().take(i as int) =~= self.entries());
        }
        sum
    }

    /// The lowest address and the end of the highest entry, when the
    /// image holds anything.
    pub fn address_range(&self) -> (r: Option<(u32, u32)>)
        requires
            self.wf(),
            self.entries().len() > 0 ==> self.entries().last().0 + self.entries().last().1.len()
                <= u32::MAX,
        ensures
            match r {
                Some((lo, hi)) => self.entries().len() > 0 && lo == self.entries()[0].0 && hi
                    == self.entries().last().0 + self.entries().last().1.len(),
                None => self.entries().len() == 0,
            },
    {
        if self.blocks.len() == 0 {
            return None;
        }
        let lo = self.blocks[0].0;
        let last = self.blocks.len() - 1;
        let hi = self.blocks[last].0 + self.blocks[last].1.len() as u32;
        Some((lo, hi))
    }
}

/// Number of whole blocks in a container file.
pub open spec fn spec_num_blocks(data: Seq<u8>) -> int {
    data.len() as int / 512
}

/// The fields of block `i` of a container file.
pub open spec fn spec_block_at(data: Seq<u8>, i: int) -> Uf2Block {
    spec_parse_block(data.subrange(i * 512, i * 512 + 512))
}

/// Block `i` marks its file-size field as a family identifier.
pub open spec fn spec_block_flagged(data: Seq<u8>, i: int) -> bool {
    spec_block_at(data, i).flags & UF2_FLAG_FAMILY_ID_PRESENT != 0
}

/// The target address block `i` names.
pub open spec fn spec_addr_at(data: Seq<u8>, i: int) -> u32 {
    spec_block_at(data, i).target_addr
}

/// The payload bytes block `i` carries.
pub open spec fn spec_payload_at(data: Seq<u8>, i: int) -> Seq<u8> {
    data.subrange(i * 512 + 32, i * 512 + 32 + spec_block_at(data, i).payload_size as int)
}

/// Every check a single block must pass: both leading magic words and
/// the trailing one, the family identifier when flagged, the block
/// index, agreement with the first block's total count, and a bounded
/// payload size.
pub open spec fn spec_block_valid(data: Seq<u8>, i: int) -> bool {
    let b = spec_block_at(data, i);
    &&& b.magic_start0 == UF2_MAGIC_START0
    &&& b.magic_start1 == UF2_MAGIC_START1
    &&& b.magic_end == UF2_MAGIC_END
    &&& (spec_block_flagged(data, i) ==> b.file_size == RP2040_FAMILY_ID)
    &&& b.block_no == i
    &&& b.num_blocks == spec_block_at(data, 0).num_blocks
    &&& b.payload_size <= UF2_MAX_PAYLOAD
}

/// A container file parses exactly when it is a nonzero whole number of
/// blocks and every block passes every check.
pub open spec fn spec_parse_ok(data: Seq<u8>) -> bool {
    &&& data.len() % 512 == 0
    &&& data.len() > 0
    &&& forall|i: int| 0 <= i < spec_num_blocks(data) ==> spec_block_valid(data, i)
}

/// The pair `e` is the address of some block among the first `n` and the
/// payload of the last such block with that address.
pub open spec fn spec_entry_from_last_block(data: Seq<u8>, e: (u32, Seq<u8>), n: int) -> bool {
    exists|i: int|
        0 <= i < n && spec_addr_at(data, i) == e.0 && e.1 == spec_payload_at(data, i) && (forall|
            k: int,
        |
            i < k < n ==> spec_addr_at(data, k) != e.0)
}

impl Uf2File {
    /// Parse a block-container file.  Any failing block rejects the
    /// whole file.
    #[verifier::spinoff_prover]
    #[verifier::rlimit(50)]
    pub fn parse_bytes(data: &[u8]) -> (r: Result<Uf2File, ImageError>)
        ensures
            match r {
                Ok(f) => {
                    &&& spec_parse_ok(data@)
                    &&& f.wf()
                    &&& f.block_count == spec_block_at(data@, 0).num_blocks
                    &&& f.family_id == (if exists|i: int|
                        0 <= i < spec_num_blocks(data@) && spec_block_flagged(data@, i) {
                        Some(RP2040_FAMILY_ID)
                    } else {
                        None::<u32>
                    })
                    &&& forall|a: u32|
                        f.contains_addr(a) <==> exists|i: int|
                            0 <= i < spec_num_blocks(data@) && spec_addr_at(data@, i) == a
                    &&& forall|a: u32, p: Seq<u8>|
                        f.has_entry(a, p) ==> spec_entry_from_last_block(
                            data@,
                            (a, p),
                            spec_num_blocks(data@),
                        )
                },
                Err(e) => {
                    &&& !spec_parse_ok(data@)
                    &&& (e == ImageError::NotBlockMultiple <==> data@.len() % 512 != 0)
                    &&& (e == ImageError::Empty <==> data@.len() % 512 == 0 && data@.len() == 0)
                },
            },
    {
        let n = data.len();
        if n % UF2_BLOCK_SIZE != 0 {
            return Err(ImageError::NotBlockMultiple);
        }
        let nb = n / UF2_BLOCK_SIZE;
        if nb == 0 {
            return Err(ImageError::Empty);
        }
        assert(nb == spec_num_blocks(data@));
        assert(nb * UF2_BLOCK_SIZE == n);

        let mut file = Uf2File { blocks: Vec::new(), block_count: 0, family_id: None };
        let mut expected_total: u32 = 0;
        let mut family: Option<u32> = None;
        let mut i: usize = 0;
        while i < nb
            invariant
                nb == spec_num_blocks(data@),
                nb * UF2_BLOCK_SIZE == data@.len(),
                data@.len() <= usize::MAX,
                1 <= nb,
                0 <= i <= nb,
                forall|j: int| 0 <= j < i ==> spec_block_valid(data@, j),
                i > 0 ==> expected_total == spec_block_at(data@, 0).num_blocks,
                family == (if exists|j: int| 0 <= j < i && spec_block_flagged(data@, j) {
                    Some(RP2040_FAMILY_ID)
                } else {
                    None::<u32>
                }),
                file.wf(),
                forall|a: u32|
                    file.contains_addr(a) <==> exists|j: int|
                        0 <= j < i && spec_addr_at(data@, j) == a,
                forall|a: u32, p: Seq<u8>|
                    file.has_entry(a, p) ==> spec_entry_from_last_block(data@, (a, p), i as int),
            decreases nb - i,
        {
            proof {
                assert(i as int * UF2_BLOCK_SIZE as int + UF2_BLOCK_SIZE as int <= nb as int
                    * UF2_BLOCK_SIZE as int) by (nonlinear_arith)
                    requires
                        i < nb,
                        UF2_BLOCK_SIZE as int > 0,
                ;
            }
            let start = i * UF2_BLOCK_SIZE;
            assert(start + UF2_BLOCK_SIZE <= data@.len());
            let block_data = slice_subrange(data, start, start + UF2_BLOCK_SIZE);
            let b = match parse_block(block_data, i) {
                Ok(b) => b,
                Err(_) => {
                    proof {
                        assert(false);
                    }
                    return Err(ImageError::BlockTooShort);
                }
            };
            proof {
                assert(block_data@ =~= data@.subrange(i as int * 512, i as int * 512 + 512));
                assert(b == spec_block_at(data@, i as int));
            }
            if b.magic_start0 != UF2_MAGIC_START0 || b.magic_start1 != UF2_MAGIC_START1
                || b.magic_end != UF2_MAGIC_END {
                assert(!spec_block_valid(data@, i as int));
                return Err(ImageError::BadMagic);
            }
            if b.flags & UF2_FLAG_FAMILY_ID_PRESENT != 0 {
                if b.file_size != RP2040_FAMILY_ID {
                    assert(!spec_block_valid(data@, i as int));
                    return Err(ImageError::BadFamily);
                }
                family = Some(b.file_size);
            }
            if i > 0xFFFF_FFFFusize || b.block_no != i as u32 {
                assert(!spec_block_valid(data@, i as int));
                return Err(ImageError::BadBlockNumber);
            }
            if i == 0 {
                expected_total = b.num_blocks;
            } else if b.num_blocks != expected_total {
                assert(!spec_block_valid(data@, i as int));
                return Err(ImageError::BlockCountMismatch);
            }
            if b.payload_size > UF2_MAX_PAYLOAD {
                assert(!spec_block_valid(data@, i as int));
                return Err(ImageError::PayloadTooBig);
            }
            let payload = slice_to_vec(
                slice_subrange(block_data, 32, 32 + b.payload_size as usize),
            );
            proof {
                assert(payload@ =~= spec_payload_at(data@, i as int));
            }
            let ghost pre = file;
            file.insert_block(b.target_addr, payload);
            proof {
                assert(spec_block_valid(data@, i as int));
                let addr = b.target_addr;
                let ii = i as int;
                assert(spec_block_flagged(data@, ii) == (b.flags & UF2_FLAG_FAMILY_ID_PRESENT
                    != 0));
                assert forall|j: int|
                    (0 <= j < ii + 1 && spec_block_flagged(data@, j)) implies (0 <= j < ii
                    && spec_block_flagged(data@, j)) || j == ii by {
                }
                assert forall|a: u32, p: Seq<u8>| file.has_entry(a, p) implies
                    spec_entry_from_last_block(data@, (a, p), ii + 1) by {
                    if a == addr {
                        lemma_wf_entry_unique(file, a, p, payload@);
                        assert(spec_addr_at(data@, ii) == a && p == spec_payload_at(data@, ii) && (
                        forall|k: int| ii < k < ii + 1 ==> spec_addr_at(data@, k) != a));
                    } else {
                        assert(pre.has_entry(a, p));
                        let j = choose|j: int|
                            0 <= j < ii && spec_addr_at(data@, j) == a && p == spec_payload_at(
                                data@,
                                j,
                            ) && (forall|k: int| j < k < ii ==> spec_addr_at(data@, k) != a);
                        assert(spec_addr_at(data@, ii) != a);
                        assert(forall|k: int| j < k < ii + 1 ==> spec_addr_at(data@, k) != a);
                    }
                }
            }
            i = i + 1;
        }
        let ghost done = file;
        file.block_count = expected_total;
        file.family_id = family;
        proof {
            assert(file.entries() =~= done.entries());
            assert forall|a: u32| file.contains_addr(a) <==> done.contains_addr(a) by {}
            assert forall|a: u32, p: Seq<u8>| file.has_entry(a, p) <==> done.has_entry(a, p) by {}
        }
        Ok(file)
    }
}

/// Entry `j` of a raw-image split: one page-sized chunk at its place
/// after the flash base.
pub open spec fn spec_bin_chunk_ok(data: Seq<u8>, a: u32, p: Seq<u8>, j: int) -> bool {
    &&& a == (FLASH_BASE + j * BIN_CHUNK_SIZE) as u32
    &&& p == data.subrange(
        j * BIN_CHUNK_SIZE,
        if (j + 1) * BIN_CHUNK_SIZE <= data.len() {
            (j + 1) * BIN_CHUNK_SIZE
        } else {
            data.len() as int
        },
    )
}

impl Uf2File {
    /// Treat raw binary data as a firmware image placed at the flash
    /// base address, split into page-sized chunks.
    #[verifier::spinoff_prover]
    #[verifier::rlimit(50)]
    pub fn parse_bin_bytes(data: &[u8]) -> (r: Result<Uf2File, ImageError>)
        requires
            FLASH_BASE as int + data@.len() <= 0x1_0000_0000,
        ensures
            match r {
                Ok(f) => {
                    &&& data@.len() > 0
                    &&& f.wf()
                    &&& f.entries().len() >= 1
                    &&& (f.entries().len() - 1) * BIN_CHUNK_SIZE < data@.len()
                        <= f.entries().len() * BIN_CHUNK_SIZE
                    &&& forall|j: int|
                        0 <= j < f.entries().len() ==> spec_bin_chunk_ok(
                            data@,
                            (#[trigger] f.entries()[j]).0,
                            f.entries()[j].1,
                            j,
                        )
                    &&& f.block_count == f.entries().len()
                    &&& f.family_id == Some(RP2040_FAMILY_ID)
                },
                Err(e) => data@.len() == 0 && e == ImageError::Empty,
            },
    {
        let n = data.len();
        if n == 0 {
            return Err(ImageError::Empty);
        }
        let mut blocks: Vec<(u32, Vec<u8>)> = Vec::new();
        let mut off: usize = 0;
        while off < n
            invariant
                n == data@.len(),
                1 <= n,
                FLASH_BASE as int + n as int <= 0x1_0000_0000,
                off == blocks@.len() * BIN_CHUNK_SIZE,
                blocks@.len() == 0 || (blocks@.len() - 1) * BIN_CHUNK_SIZE < n,
                forall|j: int|
                    0 <= j < blocks@.len() ==> spec_bin_chunk_ok(
                        data@,
                        (#[trigger] blocks@[j]).0,
                        blocks@[j].1@,
                        j,
                    ),
            decreases n + BIN_CHUNK_SIZE - off,
        {
            let start = off;
            let end = if start + BIN_CHUNK_SIZE <= n {
                start + BIN_CHUNK_SIZE
            } else {
                n
            };
            let chunk = slice_to_vec(slice_subrange(data, start, end));
            let addr = FLASH_BASE + start as u32;
            let ghost prev = blocks@;
            blocks.push((addr, chunk));
            proof {
                let l = prev.len() as int;
                assert(start == l * BIN_CHUNK_SIZE);
                assert(FLASH_BASE as int + l * BIN_CHUNK_SIZE <= u32::MAX as int);
                assert forall|j: int|
                    0 <= j < blocks@.len() implies spec_bin_chunk_ok(
                    data@,
                    (#[trigger] blocks@[j]).0,
                    blocks@[j].1@,
                    j,
                ) by {
                    if j < l {
                        assert(blocks@[j] == prev[j]);
                        assert(spec_bin_chunk_ok(data@, prev[j].0, prev[j].1@, j));
                    } else {
                        assert(j == l);
                        assert(blocks@[l].0 == addr);
                        assert(addr == (FLASH_BASE + l * BIN_CHUNK_SIZE) as u32);
                        assert(blocks@[l].1@ == data@.subrange(start as int, end as int));
                        assert(end as int == (if (l + 1) * BIN_CHUNK_SIZE <= n {
                            (l + 1) * BIN_CHUNK_SIZE
                        } else {
                            n as int
                        }));
                    }
                }
            }
            off = start + BIN_CHUNK_SIZE;
        }
        let count = blocks.len();
        let file = Uf2File {
            blocks,
            block_count: count as u32,
            family_id: Some(RP2040_FAMILY_ID),
        };
        proof {
            assert forall|i: int, j: int|
                0 <= i < j < file.entries().len() implies file.entries()[i].0
                < file.entries()[j].0 by {
                assert(file.entries()[i].0 == (FLASH_BASE + i * BIN_CHUNK_SIZE) as u32);
                assert(file.entries()[j].0 == (FLASH_BASE + j * BIN_CHUNK_SIZE) as u32);
                assert((j - 1) * BIN_CHUNK_SIZE < n);
                assert(j * BIN_CHUNK_SIZE < n + BIN_CHUNK_SIZE);
            }
        }
        Ok(file)
    }
}

/// Rejection law: a block whose leading magic words or trailing magic
/// word mismatch rejects the whole file, wherever the block sits.
pub proof fn lemma_bad_magic_rejects(data: Seq<u8>, i: int)
    requires
        0 <= i < spec_num_blocks(data),
        !(spec_block_at(data, i).magic_start0 == UF2_MAGIC_START0 && spec_block_at(
            data,
            i,
        ).magic_start1 == UF2_MAGIC_START1 && spec_block_at(data, i).magic_end == UF2_MAGIC_END),
    ensures
        !spec_parse_ok(data),
{
    assert(!spec_block_valid(data, i));
}

/// Rejection law: a block whose claimed total block count differs from
/// the first block's rejects the whole file.
pub proof fn lemma_block_count_mismatch_rejects(data: Seq<u8>, i: int)
    requires
        0 <= i < spec_num_blocks(data),
        spec_block_at(data, i).num_blocks != spec_block_at(data, 0).num_blocks,
    ensures
        !spec_parse_ok(data),
{
    assert(!spec_block_valid(data, i));
}

/// Two entries of a well-formed image at the same address hold the same
/// payload.
proof fn lemma_wf_entry_unique(f: Uf2File, a: u32, p1: Seq<u8>, p2: Seq<u8>)
    requires
        f.wf(),
        f.has_entry(a, p1),
        f.has_entry(a, p2),
    ensures
        p1 == p2,
{
    let j1 = choose|j: int| 0 <= j < f.entries().len() && f.entries()[j] == (a, p1);
    let j2 = choose|j: int| 0 <= j < f.entries().len() && f.entries()[j] == (a, p2);
    if j1 < j2 {
        assert(f.entries()[j1].0 < f.entries()[j2].0);
    } else if j2 < j1 {
        assert(f.entries()[j2].0 < f.entries()[j1].0);
    }
}

/// Sum of the payload lengths of a sequence of entries.
pub open spec fn spec_len_sum(entries: Seq<(u32, Seq<u8>)>) -> int
    decreases entries.len(),
{
    if entries.len() == 0 {
        0
    } else {
        spec_len_sum(entries.drop_last()) + entries.last().1.len()
    }
}

/// Taking one more entry adds that entry's length to the running sum.
proof fn lemma_len_sum_take_step(entries: Seq<(u32, Seq<u8>)>, i: int)
    requires
        0 <= i < entries.len(),
    ensures
        spec_len_sum(entries.take(i + 1)) == spec_len_sum(entries.take(i)) + entries[i].1.len(),
{
    assert(entries.take(i + 1).drop_last() =~= entries.take(i));
    assert(entries.take(i + 1).last() == entries[i]);
}

/// A prefix sum never exceeds the whole sum.
proof fn lemma_len_sum_rest_nonneg(entries: Seq<(u32, Seq<u8>)>, i: int)
    requires
        0 <= i <= entries.len(),
    ensures
        spec_len_sum(entries.take(i)) <= spec_len_sum(entries),
    decreases entries.len() - i,
{
    if i < entries.len() {
        lemma_len_sum_take_step(entries, i);
        lemma_len_sum_rest_nonneg(entries, i + 1);
    } else {
        assert(entries.take(i) =~= entries);
    }
}

} // verus!
