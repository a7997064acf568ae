//! Where things stand in an index file.
//!
//! A header of 64 bytes is followed by the centroids, the lower and the upper
//! corners of the bounding boxes (each `k` times [`DIMS`] 16-bit numbers), the
//! first block of each cluster and one past the last (`k + 1` 32-bit numbers),
//! the size of each cluster (`k` 32-bit numbers), the labels ([`BLOCK`] bytes
//! for each block) and the blocks themselves. All numbers are little-endian.
use crate::bytes::{read_u32, read_u64, u32_at, u64_at};
use vstd::arithmetic::power2::{is_pow2, is_pow2_equiv, pow2};
use vstd::prelude::*;

verus! {

/// How many numbers make a vector.
pub const DIMS: usize = 14;

/// How many vectors share a block.
pub const BLOCK: usize = 8;

/// The size of a block: its vectors, of two-byte numbers.
pub const BLOCK_BYTES: usize = 224;

/// What an index file starts with.
pub const MAGIC: u64 = 0x3149564936324852;

/// The only version of the format.
pub const VER: u32 = 1;

/// The size of the header.
pub const HEADER: usize = 64;

/// The numbers in the header that say what the file holds.
#[derive(Clone, Copy, PartialEq, Eq, Structural)]
pub struct FileHeader {
    pub magic: u64,
    pub version: u32,
    pub n: u32,
    pub k: u32,
    pub total_blocks: u32,
    pub block_size: u32,
    pub dims: u32,
}

/// The header at the start of `data`.
pub open spec fn header_of(data: Seq<u8>) -> FileHeader {
    FileHeader {
        magic: u64_at(data, 0),
        version: u32_at(data, 8),
        n: u32_at(data, 12),
        k: u32_at(data, 16),
        total_blocks: u32_at(data, 20),
        block_size: u32_at(data, 24),
        dims: u32_at(data, 28),
    }
}

pub fn read_header(data: &[u8]) -> (hdr: FileHeader)
    requires
        data.len() >= 32,
    ensures
        hdr == header_of(data@),
        hdr.magic == u64_at(data@, 0) && hdr.version == u32_at(data@, 8) && hdr.n == u32_at(
            data@,
            12,
        ) && hdr.k == u32_at(data@, 16) && hdr.total_blocks == u32_at(data@, 20) && hdr.block_size
            == u32_at(data@, 24) && hdr.dims == u32_at(data@, 28),
{
    FileHeader {
        magic: read_u64(data, 0),
        version: read_u32(data, 8),
        n: read_u32(data, 12),
        k: read_u32(data, 16),
        total_blocks: read_u32(data, 20),
        block_size: read_u32(data, 24),
        dims: read_u32(data, 28),
    }
}

/// The least multiple of `a` that is not below `v`.
pub open spec fn round_up(v: nat, a: nat) -> nat {
    a * ((v + a - 1) as nat / a)
}

/// Rounds `v` up to a multiple of `a`, a power of two.
pub fn align_up(v: usize, a: usize) -> (r: usize)
    requires
        a >= 1,
        v + a <= usize::MAX,
    ensures
        r == ((v + a - 1) as usize) & !((a - 1) as usize),
        is_pow2(a as int) ==> r == round_up(v as nat, a as nat),
        is_pow2(a as int) ==> v <= r < v + a && r as int % a as int == 0,
{
    let x: usize = v + a - 1;
    let m: usize = a - 1;
    proof {
        if is_pow2(a as int) {
            lemma_mask_rounds_down(x as u64, a as u64);
            assert((x & !m) == (x as u64) & !(m as u64)) by (bit_vector);
            vstd::arithmetic::div_mod::lemma_fundamental_div_mod(x as int, a as int);
            vstd::arithmetic::div_mod::lemma_mod_bound(x as int, a as int);
            vstd::arithmetic::div_mod::lemma_mod_multiples_basic(x as int / a as int, a as int);
            assert(a as int * (x as int / a as int) == x as int / a as int * a as int)
                by (nonlinear_arith);
        }
    }
    x & !m
}

/// Clearing the low bits takes off the remainder.
proof fn lemma_mask_rounds_down(x: u64, a: u64)
    requires
        is_pow2(a as int),
    ensures
        x & !((a - 1) as u64) == x - x % a,
{
    is_pow2_equiv(a as int);
    let e = choose|e: nat| vstd::arithmetic::power::pow(2, e) == a as int;
    assert(pow2(e) == a as nat);
    vstd::arithmetic::power2::lemma_pow2_pos(e);
    if e >= 64 {
        vstd::arithmetic::power2::lemma2_to64();
        if e > 64 {
            vstd::arithmetic::power2::lemma_pow2_strictly_increases(64, e);
        }
        assert(pow2(64) == 0x1_0000_0000_0000_0000);
        assert(false);
    }
    let m = (a - 1) as u64;
    assert(vstd::bits::low_bits_mask(e) == m);
    vstd::bits::lemma_u64_low_bits_mask_is_mod(x, e);
    assert(x & m == x % a);
    assert(x & !m == x - (x & m)) by (bit_vector);
}

/// Where the sections of an index file start.
pub struct Sections {
    pub centroids: usize,
    pub bbox_min: usize,
    pub bbox_max: usize,
    pub offsets: usize,
    pub counts: usize,
    pub labels: usize,
    pub blocks: usize,
}

pub open spec fn centroids_at() -> nat {
    64
}

pub open spec fn bbox_min_at(k: nat) -> nat {
    centroids_at() + k * 28
}

pub open spec fn bbox_max_at(k: nat) -> nat {
    bbox_min_at(k) + k * 28
}

pub open spec fn offsets_at(k: nat) -> nat {
    bbox_max_at(k) + k * 28
}

pub open spec fn counts_at(k: nat) -> nat {
    offsets_at(k) + (k + 1) * 4
}

pub open spec fn labels_at(k: nat) -> nat {
    counts_at(k) + k * 4
}

pub open spec fn blocks_at(k: nat, total_blocks: nat) -> nat {
    labels_at(k) + total_blocks * 8
}

/// One past the last byte of the last section.
pub open spec fn end_at(k: nat, total_blocks: nat) -> nat {
    blocks_at(k, total_blocks) + total_blocks * 224
}

impl Sections {
    /// These are the sections of a file of `k` clusters in `total_blocks`
    /// blocks.
    pub open spec fn are_for(self, k: nat, total_blocks: nat) -> bool {
        &&& self.centroids == centroids_at()
        &&& self.bbox_min == bbox_min_at(k)
        &&& self.bbox_max == bbox_max_at(k)
        &&& self.offsets == offsets_at(k)
        &&& self.counts == counts_at(k)
        &&& self.labels == labels_at(k)
        &&& self.blocks == blocks_at(k, total_blocks)
    }
}

/// Each section starts where numbers of its kind may start: 32-bit ones at a
/// multiple of 4, 16-bit ones at a multiple of 2. So no section needs padding
/// in front of it.
pub proof fn law_sections_are_aligned(k: nat, total_blocks: nat)
    ensures
        centroids_at() % 2 == 0,
        bbox_min_at(k) % 2 == 0,
        bbox_max_at(k) % 2 == 0,
        offsets_at(k) % 4 == 0,
        counts_at(k) % 4 == 0,
        blocks_at(k, total_blocks) % 2 == 0,
        round_up(offsets_at(k), 4) == offsets_at(k),
        round_up(blocks_at(k, total_blocks), 2) == blocks_at(k, total_blocks),
{
}

/// Finds the sections of a file of `k` clusters in `total_blocks` blocks.
pub fn compute_sections(k: usize, total_blocks: usize) -> (sec: Sections)
    requires
        end_at(k as nat, total_blocks as nat) <= usize::MAX,
    ensures
        sec.are_for(k as nat, total_blocks as nat),
        sec.centroids == 64,
        sec.bbox_min == sec.centroids + k * 28,
        sec.bbox_max == sec.bbox_min + k * 28,
        sec.offsets == sec.bbox_max + k * 28,
        sec.counts == sec.offsets + (k + 1) * 4,
        sec.labels == sec.counts + k * 4,
        sec.blocks == sec.labels + total_blocks * 8,
{
    proof {
        law_sections_are_aligned(k as nat, total_blocks as nat);
        assert(is_pow2(4) && is_pow2(2)) by {
            reveal_with_fuel(is_pow2, 3);
        }
    }
    let mut p: usize = HEADER;
    let centroids = p;
    p = p + k * DIMS * 2;
    let bbox_min = p;
    p = p + k * DIMS * 2;
    let bbox_max = p;
    p = p + k * DIMS * 2;
    p = align_up(p, 4);
    let offsets = p;
    p = p + (k + 1) * 4;
    let counts = p;
    p = p + k * 4;
    let labels = p;
    p = p + total_blocks * BLOCK;
    p = align_up(p, 2);
    let blocks = p;
    Sections { centroids, bbox_min, bbox_max, offsets, counts, labels, blocks }
}

/// The header is followed by one section after the other, without gaps: three
/// vectors of fourteen 16-bit numbers for each cluster, a 32-bit number for
/// each cluster and one more, another for each cluster, and for each block
/// eight labels and eight vectors.
pub proof fn law_sections_follow_each_other(data: Seq<u8>, k: nat, total_blocks: nat)
    ensures
        header_of(data).magic == u64_at(data, 0),
        header_of(data).version == u32_at(data, 8),
        header_of(data).n == u32_at(data, 12),
        header_of(data).k == u32_at(data, 16),
        header_of(data).total_blocks == u32_at(data, 20),
        header_of(data).block_size == u32_at(data, 24),
        header_of(data).dims == u32_at(data, 28),
        centroids_at() == 64,
        bbox_min_at(k) - centroids_at() == k * 14 * 2,
        bbox_max_at(k) - bbox_min_at(k) == k * 14 * 2,
        offsets_at(k) - bbox_max_at(k) == k * 14 * 2,
        counts_at(k) - offsets_at(k) == (k + 1) * 4,
        labels_at(k) - counts_at(k) == k * 4,
        blocks_at(k, total_blocks) - labels_at(k) == total_blocks * 8,
        end_at(k, total_blocks) - blocks_at(k, total_blocks) == total_blocks * 14 * 8 * 2,
{
}

} // verus!
