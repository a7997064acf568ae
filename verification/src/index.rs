//! The index of known transactions: vectors grouped into clusters.
//!
//! A query picks the clusters whose centroids are nearest and looks for its
//! nearest neighbours among their vectors.
use crate::bytes::{i16_at, read_i16, read_u32};
use crate::distance::{
    box_dist, box_sum_sq, dist, fits_lanes, lane_dist, law_lane_dist_is_the_distance,
    lemma_sum_sq_bounds, sq_diff, sq_outside, sq_pair, sum_sq, wrapped_sum_sq,
};
use crate::heap::{label_sum, KnnHeap};
use crate::layout::{
    bbox_min_at, centroids_at, compute_sections, end_at, header_of, read_header, Sections, BLOCK,
    BLOCK_BYTES, DIMS, HEADER, MAGIC, VER,
};
use crate::model::{
    can_search, can_top1, can_topn, candidates, centroid_rank, decode, entries_fit, entry_at,
    entry_rank, file_error, first_block, in_full_groups, is_nearest, lane_end, lemma_nearest_is,
    lemma_order_is_of_clusters, nearest, probe_order, scored, search_clusters, top1, topn, trace_of,
    vector_at, Cluster, Entry, OpenError, QueryTrace,
};
use crate::ranked::{lemma_offer_all_concat, offer, offer_all, worst_dist, Ranked};
use crate::select::{pick, take_in, Selection};
use vstd::prelude::*;

verus! {

/// The place of coordinate `d` of centroid `c` in the transposed centroids.
spec fn soa_index(k: int, d: int, c: int) -> int {
    d * k + c
}

/// An index file, ready for queries.
pub struct IvfIndex<'a> {
    data: &'a [u8],
    k: usize,
    total_blocks: usize,
    sec: Sections,
    /// The centroids transposed: coordinate `d` of centroid `c` is at
    /// `d * k + c`.
    csoa: Vec<i16>,
}

impl<'a> View for IvfIndex<'a> {
    type V = Seq<Cluster>;

    closed spec fn view(&self) -> Seq<Cluster> {
        decode(self.data@)
    }
}

/// `csoa` holds the transposed centroids.
spec fn is_transposed(csoa: Seq<i16>, data: Seq<u8>, k: nat) -> bool {
    &&& csoa.len() == DIMS * k
    &&& forall|d: int, c: int|
        0 <= d < DIMS && 0 <= c < k ==> #[trigger] csoa[soa_index(k as int, d, c)]
            == i16_at(data, centroids_at() + c * 28 + 2 * d)
}

proof fn lemma_soa_index(k: int, d: int, c: int)
    requires
        0 <= d < DIMS,
        0 <= c < k,
    ensures
        0 <= d * k <= soa_index(k, d, c) < (d + 1) * k <= DIMS * k,
{
    assert(0 <= d * k && d * k + c < (d + 1) * k && (d + 1) * k <= 14 * k) by (nonlinear_arith)
        requires
            0 <= d < 14,
            0 <= c < k,
    ;
}

impl<'a> IvfIndex<'a> {
    #[verifier::type_invariant]
    #[verifier::opaque]
    spec fn is_open(self) -> bool {
        &&& file_error(self.data@) is None
        &&& self.k == header_of(self.data@).k
        &&& self.total_blocks == header_of(self.data@).total_blocks
        &&& self.sec.are_for(self.k as nat, self.total_blocks as nat)
        &&& is_transposed(self.csoa@, self.data@, self.k as nat)
    }

    /// The sections stand where the layout has them, the centroids inside the
    /// file.
    proof fn lemma_sections(self)
        requires
            self.is_open(),
        ensures
            self.sec.are_for(self.k as nat, self.total_blocks as nat),
            bbox_min_at(self.k as nat) <= self.data.len(),
            end_at(self.k as nat, self.total_blocks as nat) <= usize::MAX,
            self.k == self@.len(),
            self.k == header_of(self.data@).k,
            self.total_blocks == header_of(self.data@).total_blocks,
    {
        reveal(IvfIndex::is_open);
    }

    /// Makes the bytes of an index file ready for queries.
    pub fn open(data: &'a [u8]) -> (res: Result<IvfIndex<'a>, OpenError>)
        ensures
            match res {
                Ok(index) => file_error(data@) is None && index@ == decode(data@),
                Err(e) => file_error(data@) == Some(e),
            },
    {
        if data.len() < HEADER {
            return Err(OpenError::Truncated);
        }
        let hdr = read_header(data);
        if hdr.magic != MAGIC {
            return Err(OpenError::BadMagic);
        }
        if hdr.version != VER {
            return Err(OpenError::BadVersion);
        }
        if hdr.dims != DIMS as u32 {
            return Err(OpenError::BadDims);
        }
        if hdr.block_size != BLOCK as u32 {
            return Err(OpenError::BadBlockSize);
        }
        // The header, what each cluster takes, what each block takes.
        let size: u64 = 68 + hdr.k as u64 * 92 + hdr.total_blocks as u64 * 232;
        assert(size == end_at(hdr.k as nat, hdr.total_blocks as nat));
        if size > usize::MAX as u64 {
            return Err(OpenError::Truncated);
        }
        let k = hdr.k as usize;
        let total_blocks = hdr.total_blocks as usize;
        let sec = compute_sections(k, total_blocks);
        if data.len() < sec.bbox_min {
            return Err(OpenError::Truncated);
        }
        let csoa = transpose(data, k, &sec, total_blocks);
        proof {
            reveal(IvfIndex::is_open);
        }
        Ok(IvfIndex { data, k, total_blocks, sec, csoa })
    }
}

/// Transposes the centroids.
fn transpose(data: &[u8], k: usize, sec: &Sections, total_blocks: usize) -> (csoa: Vec<i16>)
    requires
        sec.are_for(k as nat, total_blocks as nat),
        bbox_min_at(k as nat) <= data.len(),
    ensures
        is_transposed(csoa@, data@, k as nat),
{
    let mut csoa: Vec<i16> = Vec::new();
    let mut d: usize = 0;
    while d < DIMS
        invariant
            d <= DIMS,
            csoa@.len() == d * k,
            sec.are_for(k as nat, total_blocks as nat),
            bbox_min_at(k as nat) <= data.len(),
            forall|e: int, b: int|
                0 <= e < d && 0 <= b < k ==> #[trigger] csoa@[soa_index(k as int, e, b)] == i16_at(
                    data@,
                    centroids_at() + b * 28 + 2 * e,
                ),
        decreases DIMS - d,
    {
        let mut c: usize = 0;
        while c < k
            invariant
                d < DIMS,
                c <= k,
                csoa@.len() == d * k + c,
                sec.are_for(k as nat, total_blocks as nat),
                bbox_min_at(k as nat) <= data.len(),
                forall|e: int, b: int|
                    0 <= e <= d && 0 <= b < k && (e < d || b < c) ==> #[trigger] csoa@[soa_index(
                        k as int,
                        e,
                        b,
                    )] == i16_at(data@, centroids_at() + b * 28 + 2 * e),
            decreases k - c,
        {
            let ghost before = csoa@;
            csoa.push(read_i16(data, sec.centroids + c * DIMS * 2 + d * 2));
            assert forall|e: int, b: int|
                0 <= e <= d && 0 <= b < k && (e < d || b < c + 1) implies #[trigger] csoa@[soa_index(
                k as int,
                e,
                b,
            )] == i16_at(data@, centroids_at() + b * 28 + 2 * e) by {
                lemma_soa_index(k as int, e, b);
                if e < d {
                    assert((e + 1) * k <= d * k) by (nonlinear_arith)
                        requires
                            e + 1 <= d,
                            0 <= k,
                    ;
                    assert(csoa@[soa_index(k as int, e, b)] == before[soa_index(k as int, e, b)]);
                } else if b < c {
                    assert(csoa@[soa_index(k as int, e, b)] == before[soa_index(k as int, e, b)]);
                }
            }
            c = c + 1;
        }
        assert((d + 1) * k == d * k + k) by (nonlinear_arith);
        d = d + 1;
    }
    csoa
}

/// Offering one more item of a batch.
proof fn lemma_offer_next(s: Seq<Ranked>, xs: Seq<Ranked>, i: int)
    requires
        0 <= i < xs.len(),
    ensures
        offer_all(s, xs.take(i + 1)) == offer(offer_all(s, xs.take(i)), xs[i]),
{
    assert(xs.take(i + 1).drop_last() =~= xs.take(i));
}

/// Picking from one more item.
proof fn lemma_pick_next(xs: Seq<Ranked>, n: nat, i: int)
    requires
        0 <= i < xs.len(),
    ensures
        pick(xs.take(i + 1), n) == take_in(pick(xs.take(i), n), n, xs[i]),
{
    assert(xs.take(i + 1).drop_last() =~= xs.take(i));
}

impl<'a> IvfIndex<'a> {
    /// The number of clusters.
    pub fn cluster_count(&self) -> (k: usize)
        ensures
            k == self@.len(),
            k <= u32::MAX,
    {
        proof {
            use_type_invariant(self);
            self.lemma_sections();
        }
        self.k
    }

    /// The squared distance from a query to centroid `c`.
    pub fn centroid_dist_scalar(&self, q: &[i16; DIMS], c: usize) -> (r: u64)
        requires
            c < self@.len(),
        ensures
            r == dist(q@, self@[c as int].centroid),
    {
        proof {
            use_type_invariant(self);
            self.lemma_sections();
        }
        let base: usize = self.sec.centroids + c * DIMS * 2;
        let ghost v = self@[c as int].centroid;
        let mut acc: u64 = 0;
        for d in 0..DIMS
            invariant
                acc == sum_sq(q@, v, d as int),
                acc <= d * crate::distance::MAX_SQ,
                base + 28 <= self.data.len(),
                v == vector_at(self.data@, base as int),
        {
            acc = acc + sq_diff(q[d], read_i16(self.data, base + d * 2));
        }
        acc
    }

    /// The squared distance from a query to the bounding box of cluster `c`:
    /// no vector in the box is closer.
    fn bbox_lb(&self, q: &[i16; DIMS], c: usize) -> (r: u64)
        requires
            c < self@.len(),
            self@[c as int].box_in_file,
        ensures
            r == box_dist(q@, self@[c as int].lo, self@[c as int].hi),
    {
        proof {
            use_type_invariant(self);
            self.lemma_sections();
        }
        let low: usize = self.sec.bbox_min + c * DIMS * 2;
        let high: usize = self.sec.bbox_max + c * DIMS * 2;
        let ghost lo = self@[c as int].lo;
        let ghost hi = self@[c as int].hi;
        let mut acc: u64 = 0;
        for d in 0..DIMS
            invariant
                acc == box_sum_sq(q@, lo, hi, d as int),
                acc <= d * crate::distance::MAX_SQ,
                low + 28 <= self.data.len(),
                high + 28 <= self.data.len(),
                lo == vector_at(self.data@, low as int),
                hi == vector_at(self.data@, high as int),
        {
            acc = acc + sq_outside(
                q[d],
                read_i16(self.data, low + d * 2),
                read_i16(self.data, high + d * 2),
            );
        }
        acc
    }

    /// Coordinate `d` of centroid `c`, out of the transposed centroids.
    fn transposed(&self, d: usize, c: usize) -> (x: i16)
        requires
            d < DIMS,
            c < self@.len(),
        ensures
            x == self@[c as int].centroid[d as int],
    {
        let k = self.cluster_count();
        proof {
            use_type_invariant(self);
            self.lemma_sections();
            reveal(IvfIndex::is_open);
            lemma_soa_index(k as int, d as int, c as int);
            assert(self.csoa@[soa_index(k as int, d as int, c as int)]
                == self@[c as int].centroid[d as int]);
        }
        assert(self.csoa.len() == self.csoa@.len());
        self.csoa[d * k + c]
    }

    /// The squared distances from a query to eight consecutive centroids,
    /// computed in lanes. Where no lane overflows they are those that
    /// [`IvfIndex::centroid_dist_scalar`] computes.
    pub fn dist8(&self, q: &[i16; DIMS], c_base: usize) -> (out: [u32; 8])
        requires
            c_base + 8 <= self@.len(),
        ensures
            forall|lane: int|
                0 <= lane < 8 ==> #[trigger] out@[lane] == lane_dist(
                    q@,
                    self@[c_base + lane].centroid,
                ),
            forall|lane: int|
                0 <= lane < 8 && fits_lanes(q@, self@[c_base + lane].centroid)
                    ==> #[trigger] out@[lane] == dist(q@, self@[c_base + lane].centroid),
    {
        let k = self.cluster_count();
        let mut acc: [u32; 8] = [0; 8];
        let mut d: usize = 0;
        while d < DIMS
            invariant
                d <= DIMS,
                d % 2 == 0,
                c_base + 8 <= k,
                k == self@.len(),
                forall|lane: int|
                    0 <= lane < 8 ==> #[trigger] acc@[lane] == wrapped_sum_sq(
                        q@,
                        self@[c_base + lane].centroid,
                        d as int,
                    ) % 0x1_0000_0000,
            decreases DIMS - d,
        {
            for lane in 0..8
                invariant
                    d + 1 < DIMS,
                    c_base + 8 <= k,
                    k == self@.len(),
                    forall|l: int|
                        0 <= l < 8 ==> #[trigger] acc@[l] == wrapped_sum_sq(
                            q@,
                            self@[c_base + l].centroid,
                            if l < lane {
                                d + 2
                            } else {
                                d as int
                            },
                        ) % 0x1_0000_0000,
            {
                let v0 = self.transposed(d, c_base + lane);
                let v1 = self.transposed(d + 1, c_base + lane);
                proof {
                    let v = self@[c_base + lane].centroid;
                    reveal_with_fuel(wrapped_sum_sq, 3);
                    assert(acc@[lane as int] == wrapped_sum_sq(q@, v, d as int) % 0x1_0000_0000);
                }
                acc[lane] = acc[lane].wrapping_add(sq_pair(q[d], v0, q[d + 1], v1));
            }
            d = d + 2;
        }
        proof {
            assert forall|lane: int|
                0 <= lane < 8 && fits_lanes(q@, self@[c_base + lane].centroid) implies
                #[trigger] acc@[lane] == dist(q@, self@[c_base + lane].centroid) by {
                law_lane_dist_is_the_distance(q@, self@[c_base + lane].centroid);
            }
        }
        acc
    }
}

/// The rank of an entry, measured in a lane or not.
spec fn rank_of(q: Seq<i16>, entry: Entry, in_lanes: bool) -> Ranked {
    Ranked {
        dist: if in_lanes {
            lane_dist(q, entry.vector)
        } else {
            dist(q, entry.vector)
        },
        tag: entry.label as u32,
    }
}

impl<'a> IvfIndex<'a> {
    /// The entry in lane `lane` of block `blk`.
    #[verifier::opaque]
    spec fn block_entry(self, blk: int, lane: int) -> Entry {
        entry_at(self.data@, self.k as nat, self.total_blocks as nat, blk, lane)
    }

    /// The ranks of the first `n` entries of block `blk`.
    spec fn block_ranks(self, q: Seq<i16>, blk: int, n: nat, in_lanes: bool) -> Seq<Ranked> {
        Seq::new(n, |lane: int| rank_of(q, self.block_entry(blk, lane), in_lanes))
    }

    /// The vector in lane `lane` of block `blk` lies in the file.
    spec fn has_lane(self, blk: int, lane: int) -> bool {
        lane_end(self.k as nat, self.total_blocks as nat, blk, lane) <= self.data.len()
    }

    /// Coordinate `d` of the vector in lane `lane` of block `blk`.
    fn coordinate(&self, blk: usize, d: usize, lane: usize) -> (x: i16)
        requires
            self.has_lane(blk as int, lane as int),
            d < DIMS,
            lane < BLOCK,
        ensures
            x == self.block_entry(blk as int, lane as int).vector[d as int],
    {
        proof {
            use_type_invariant(self);
            self.lemma_sections();
        }
        let block: usize = self.sec.blocks + blk * BLOCK_BYTES;
        let at: usize = (d * BLOCK + lane) * 2;
        let x = read_i16(self.data, block + at);
        proof {
            reveal(IvfIndex::block_entry);
            assert(lane as int / 8 == 0 && lane as int % 8 == lane);
        }
        x
    }

    /// The label of the vector in lane `lane` of block `blk`.
    fn label(&self, blk: usize, lane: usize) -> (l: u8)
        requires
            self.has_lane(blk as int, lane as int),
            lane < BLOCK,
        ensures
            l == self.block_entry(blk as int, lane as int).label,
    {
        proof {
            use_type_invariant(self);
            self.lemma_sections();
            reveal(IvfIndex::block_entry);
        }
        self.data[self.sec.labels + blk * BLOCK + lane]
    }

    /// The squared distances from a query to the eight vectors of a block,
    /// computed in lanes.
    fn block_dists(&self, blk: usize, q: &[i16; DIMS]) -> (dist: [u32; 8])
        requires
            self.has_lane(blk as int, 7),
        ensures
            forall|lane: int|
                0 <= lane < 8 ==> #[trigger] dist@[lane] == lane_dist(
                    q@,
                    self.block_entry(blk as int, lane).vector,
                ),
    {
        let mut dist: [u32; 8] = [0; 8];
        let mut d: usize = 0;
        while d < DIMS
            invariant
                d <= DIMS,
                d % 2 == 0,
                self.has_lane(blk as int, 7),
                forall|lane: int|
                    0 <= lane < 8 ==> #[trigger] dist@[lane] == wrapped_sum_sq(
                        q@,
                        self.block_entry(blk as int, lane).vector,
                        d as int,
                    ) % 0x1_0000_0000,
            decreases DIMS - d,
        {
            for lane in 0..8
                invariant
                    d + 1 < DIMS,
                    self.has_lane(blk as int, 7),
                    forall|l: int|
                        0 <= l < 8 ==> #[trigger] dist@[l] == wrapped_sum_sq(
                            q@,
                            self.block_entry(blk as int, l).vector,
                            if l < lane {
                                d + 2
                            } else {
                                d as int
                            },
                        ) % 0x1_0000_0000,
            {
                let v0 = self.coordinate(blk, d, lane);
                let v1 = self.coordinate(blk, d + 1, lane);
                proof {
                    let v = self.block_entry(blk as int, lane as int).vector;
                    reveal_with_fuel(wrapped_sum_sq, 3);
                    assert(dist@[lane as int] == wrapped_sum_sq(q@, v, d as int) % 0x1_0000_0000);
                }
                dist[lane] = dist[lane].wrapping_add(sq_pair(q[d], v0, q[d + 1], v1));
            }
            d = d + 2;
        }
        dist
    }

    /// Scores the eight vectors of a full block, in lanes.
    fn score_block8(&self, blk: usize, q: &[i16; DIMS], heap: &mut KnnHeap)
        requires
            self.has_lane(blk as int, 7),
        ensures
            final(heap)@ == offer_all(old(heap)@, self.block_ranks(q@, blk as int, 8, true)),
    {
        let ghost ranks = self.block_ranks(q@, blk as int, 8, true);
        let dist = self.block_dists(blk, q);
        let ghost before = heap@;
        let mut gate: u64 = heap.gate();
        assert(ranks.take(0) =~= Seq::<Ranked>::empty());
        for lane in 0..8
            invariant
                self.has_lane(blk as int, 7),
                ranks == self.block_ranks(q@, blk as int, 8, true),
                heap@ == offer_all(before, ranks.take(lane as int)),
                gate == worst_dist(heap@),
                heap@.len() == 5,
                forall|lane: int|
                    0 <= lane < 8 ==> #[trigger] dist@[lane] == lane_dist(
                        q@,
                        self.block_entry(blk as int, lane).vector,
                    ),
        {
            let dv: u64 = dist[lane] as u64;
            proof {
                lemma_offer_next(before, ranks, lane as int);
            }
            if dv < gate {
                heap.insert(dv, self.label(blk, lane));
                gate = heap.gate();
            }
        }
        assert(ranks.take(8) =~= ranks);
    }

    /// Sums up the squared distance to the vector in lane `lane` of a block,
    /// and stops early once the sum has reached `gate`.
    fn dist_up_to(&self, blk: usize, lane: usize, q: &[i16; DIMS], gate: u64) -> (acc: u64)
        requires
            self.has_lane(blk as int, lane as int),
            lane < BLOCK,
        ensures
            ({
                let exact = dist(q@, self.block_entry(blk as int, lane as int).vector);
                acc == exact || gate <= acc <= exact
            }),
    {
        let ghost v = self.block_entry(blk as int, lane as int).vector;
        let mut acc: u64 = 0;
        let mut d: usize = 0;
        while d < DIMS
            invariant
                self.has_lane(blk as int, lane as int),
                lane < BLOCK,
                d <= DIMS,
                v == self.block_entry(blk as int, lane as int).vector,
                acc == sum_sq(q@, v, d as int),
                acc <= d * crate::distance::MAX_SQ,
            ensures
                d <= DIMS,
                acc == sum_sq(q@, v, d as int),
                d < DIMS ==> acc >= gate,
            decreases DIMS - d,
        {
            acc = acc + sq_diff(q[d], self.coordinate(blk, d, lane));
            d = d + 1;
            if acc >= gate {
                break;
            }
        }
        proof {
            lemma_sum_sq_bounds(q@, v, d as int, DIMS as int);
        }
        acc
    }

    /// Scores the first `valid` vectors of a block, giving each up as soon as
    /// it is too far away to be taken in.
    fn score_block_part(&self, blk: usize, valid: usize, q: &[i16; DIMS], heap: &mut KnnHeap)
        requires
            valid > 0 ==> self.has_lane(blk as int, valid - 1),
            valid < BLOCK,
        ensures
            final(heap)@ == offer_all(
                old(heap)@,
                self.block_ranks(q@, blk as int, valid as nat, false),
            ),
    {
        let ghost ranks = self.block_ranks(q@, blk as int, valid as nat, false);
        let ghost before = heap@;
        assert(ranks.take(0) =~= Seq::<Ranked>::empty());
        for lane in 0..valid
            invariant
                valid > 0 ==> self.has_lane(blk as int, valid - 1),
                valid < BLOCK,
                ranks == self.block_ranks(q@, blk as int, valid as nat, false),
                heap@ == offer_all(before, ranks.take(lane as int)),
        {
            let gate: u64 = heap.gate();
            let acc = self.dist_up_to(blk, lane, q, gate);
            proof {
                lemma_offer_next(before, ranks, lane as int);
            }
            heap.insert(acc, self.label(blk, lane));
        }
        assert(ranks.take(valid as int) =~= ranks);
    }

    /// Tells whether the bounding box of cluster `c` can be read.
    pub fn has_box(&self, c: usize) -> (yes: bool)
        requires
            c < self@.len(),
        ensures
            yes == self@[c as int].box_in_file,
    {
        proof {
            use_type_invariant(self);
            self.lemma_sections();
        }
        self.sec.bbox_max + (c + 1) * DIMS * 2 <= self.data.len()
    }

    /// Tells whether the entries of cluster `c` can be read.
    pub fn has_entries(&self, c: usize) -> (yes: bool)
        requires
            c < self@.len(),
        ensures
            yes == self@[c as int].entries_in_file,
    {
        proof {
            use_type_invariant(self);
            self.lemma_sections();
            assert(self@[c as int].entries_in_file == entries_fit(
                self.data@,
                self.k as nat,
                self.total_blocks as nat,
                c as int,
            ));
        }
        if self.sec.counts + (c + 1) * 4 > self.data.len() {
            return false;
        }
        let first: u64 = read_u32(self.data, self.sec.offsets + c * 4) as u64;
        let count: u64 = read_u32(self.data, self.sec.counts + c * 4) as u64;
        if count == 0 {
            return true;
        }
        let last: u64 = count - 1;
        let end: u64 = self.sec.blocks as u64 + (first + last / 8) * 224 + (13 * 8 + last % 8) * 2
            + 2;
        end <= self.data.len() as u64
    }

    /// Offers all entries of cluster `c` to the heap.
    fn probe_cluster(&self, c: usize, q: &[i16; DIMS], heap: &mut KnnHeap)
        requires
            c < self@.len(),
            self@[c as int].entries_in_file,
        ensures
            final(heap)@ == offer_all(old(heap)@, scored(self@[c as int], q@)),
    {
        proof {
            use_type_invariant(self);
            self.lemma_sections();
            assert(entries_fit(self.data@, self.k as nat, self.total_blocks as nat, c as int));
        }
        let ghost cluster = self@[c as int];
        let ghost all = scored(cluster, q@);
        let ghost before = heap@;
        let blk_start = read_u32(self.data, self.sec.offsets + c * 4) as usize;
        let cnt = read_u32(self.data, self.sec.counts + c * 4) as usize;
        if cnt == 0 {
            assert(all =~= Seq::<Ranked>::empty());
            return ;
        }
        let nblocks: usize = (cnt + BLOCK - 1) / BLOCK;
        assert(all.take(0) =~= Seq::<Ranked>::empty());
        for b in 0..nblocks
            invariant
                nblocks == (cnt + 7) / 8,
                cnt > 0,
                self.has_lane(blk_start + (cnt - 1) / 8, (cnt - 1) % 8),
                cnt == cluster.entries.len(),
                c < self.k,
                self.is_open(),
                cluster == self@[c as int],
                blk_start == first_block(self.data@, self.k as nat, c as int),
                all == scored(cluster, q@),
                heap@ == offer_all(
                    before,
                    all.take(
                        if b * 8 < cnt {
                            b * 8
                        } else {
                            cnt as int
                        },
                    ),
                ),
        {
            proof {
                assert(b <= (cnt - 1) / 8);
            }
            let blk_id: usize = blk_start + b;
            let rest: usize = cnt - b * BLOCK;
            let ghost done = all.take(b * 8);
            if rest >= BLOCK {
                self.score_block8(blk_id, q, heap);
                proof {
                    self.lemma_block_of_cluster(c as int, q@, b as int, 8);
                    lemma_offer_all_concat(
                        before,
                        done,
                        self.block_ranks(q@, blk_id as int, 8, true),
                    );
                }
            } else {
                self.score_block_part(blk_id, rest, q, heap);
                proof {
                    self.lemma_block_of_cluster(c as int, q@, b as int, rest as nat);
                    lemma_offer_all_concat(
                        before,
                        done,
                        self.block_ranks(q@, blk_id as int, rest as nat, false),
                    );
                }
            }
        }
        assert(all.take(cnt as int) =~= all);
    }
}

impl<'a> IvfIndex<'a> {
    /// The ranks in the `b`th block of cluster `c` follow those in the blocks
    /// before it.
    proof fn lemma_block_of_cluster(self, c: int, q: Seq<i16>, b: int, n: nat)
        requires
            self.is_open(),
            0 <= c < self.k,
            0 <= b,
            n == 8 || n < 8 && b * 8 + n == self@[c].entries.len(),
            b * 8 + n <= self@[c].entries.len(),
        ensures
            scored(self@[c], q).take(b * 8 + n) == scored(self@[c], q).take(b * 8)
                + self.block_ranks(
                q,
                first_block(self.data@, self.k as nat, c) + b,
                n,
                n == 8,
            ),
    {
        let cluster = self@[c];
        let all = scored(cluster, q);
        let blk = first_block(self.data@, self.k as nat, c) + b;
        let ranks = self.block_ranks(q, blk, n, n == 8);
        assert forall|lane: int| 0 <= lane < n implies ranks[lane] == all[b * 8 + lane] by {
            self.lemma_same_entry(c, b, lane);
            lemma_full_groups(cluster.entries.len(), b, n, lane);
            assert(ranks[lane] == rank_of(q, self.block_entry(blk, lane), n == 8));
            assert(all[b * 8 + lane] == entry_rank(cluster, q, b * 8 + lane));
        }
        assert(all.take(b * 8 + n) =~= all.take(b * 8) + ranks);
    }

    /// Entry `b * 8 + lane` of cluster `c` stands in lane `lane` of its `b`th
    /// block.
    proof fn lemma_same_entry(self, c: int, b: int, lane: int)
        requires
            self.is_open(),
            0 <= c < self.k,
            0 <= b,
            0 <= lane < 8,
            b * 8 + lane < self@[c].entries.len(),
        ensures
            self@[c].entries[b * 8 + lane] == self.block_entry(
                first_block(self.data@, self.k as nat, c) + b,
                lane,
            ),
    {
        self.lemma_sections();
        reveal(IvfIndex::block_entry);
        assert((b * 8 + lane) / 8 == b && (b * 8 + lane) % 8 == lane);
        assert(lane / 8 == 0 && lane % 8 == lane);
    }
}

/// The `b`th group of eight is full if and only if all its members are in full
/// groups.
proof fn lemma_full_groups(m: nat, b: int, n: nat, lane: int)
    requires
        0 <= b,
        0 <= lane < n,
        n == 8 || n < 8 && b * 8 + n == m,
        b * 8 + n <= m,
    ensures
        b * 8 + lane < in_full_groups(m) <==> n == 8,
{
}

/// Ranks are squared distances, which never reach the largest number.
proof fn lemma_ranks_are_small(clusters: Seq<Cluster>, q: Seq<i16>, c: int)
    ensures
        centroid_rank(clusters, q, c).dist < u64::MAX,
{
    lemma_sum_sq_bounds(q, clusters[c].centroid, DIMS as int, DIMS as int);
}

/// What cannot be searched does not become searchable by going on.
proof fn lemma_cannot_search(clusters: Seq<Cluster>, q: Seq<i16>, order: Seq<Ranked>, n: int)
    requires
        0 <= n <= order.len(),
        !can_search(clusters, q, order.take(n)),
    ensures
        !can_search(clusters, q, order),
    decreases order.len() - n,
{
    if n < order.len() {
        assert(order.take(n + 1).drop_last() =~= order.take(n));
        lemma_cannot_search(clusters, q, order, n + 1);
    } else {
        assert(order.take(n) =~= order);
    }
}

/// A candidate in a full group of eight.
proof fn lemma_lane_candidate(clusters: Seq<Cluster>, q: Seq<i16>, c: int, lane: int)
    requires
        c % 8 == 0,
        0 <= c,
        0 <= lane < 8,
        c + 8 <= clusters.len(),
    ensures
        candidates(clusters, q)[c + lane] == (Ranked {
            dist: lane_dist(q, clusters[c + lane].centroid),
            tag: (c + lane) as u32,
        }),
{
    lemma_full_groups(clusters.len(), c / 8, 8, lane);
}

/// `best` is the first nearest of the first `n` of `xs`, at distance `d`.
spec fn is_nearest_so_far(xs: Seq<Ranked>, n: int, best: int, d: u64) -> bool {
    if n == 0 {
        best == 0 && d == u64::MAX
    } else {
        &&& 0 <= best < n
        &&& d == xs[best].dist
        &&& forall|j: int| 0 <= j < n ==> d <= (#[trigger] xs[j]).dist
        &&& forall|j: int| 0 <= j < best ==> d < (#[trigger] xs[j]).dist
    }
}

/// Goes on looking for the first nearest among eight more.
fn nearest_of_eight(
    dists: &[u32; 8],
    c: usize,
    best_c: usize,
    best_d: u64,
    Ghost(xs): Ghost<Seq<Ranked>>,
) -> (best: (usize, u64))
    requires
        c + 8 <= xs.len() <= usize::MAX,
        forall|lane: int| 0 <= lane < 8 ==> #[trigger] dists@[lane] == xs[c + lane].dist,
        is_nearest_so_far(xs, c as int, best_c as int, best_d),
    ensures
        is_nearest_so_far(xs, c + 8, best.0 as int, best.1),
{
    let mut best_c: usize = best_c;
    let mut best_d: u64 = best_d;
    for lane in 0..8
        invariant
            c + 8 <= xs.len() <= usize::MAX,
            forall|lane: int| 0 <= lane < 8 ==> #[trigger] dists@[lane] == xs[c + lane].dist,
            is_nearest_so_far(xs, c + lane, best_c as int, best_d),
    {
        let d: u64 = dists[lane] as u64;
        if d < best_d {
            best_d = d;
            best_c = c + lane;
        }
    }
    (best_c, best_d)
}

impl<'a> IvfIndex<'a> {
    /// The cluster with the nearest centroid, the first of several.
    fn nearest_cluster(&self, q: &[i16; DIMS]) -> (best_c: usize)
        requires
            self@.len() > 0,
        ensures
            best_c < self@.len(),
            best_c == nearest(candidates(self@, q@)),
    {
        let k = self.cluster_count();
        let ghost xs = candidates(self@, q@);
        let mut best_c: usize = 0;
        let mut best_d: u64 = u64::MAX;
        let mut c: usize = 0;
        while k - c >= 8
            invariant
                c <= k,
                c % 8 == 0,
                k == self@.len(),
                xs == candidates(self@, q@),
                is_nearest_so_far(xs, c as int, best_c as int, best_d),
            decreases k - c,
        {
            let dists = self.dist8(q, c);
            proof {
                assert forall|lane: int| 0 <= lane < 8 implies #[trigger] dists@[lane] == xs[c
                    + lane].dist by {
                    lemma_lane_candidate(self@, q@, c as int, lane);
                }
            }
            let best = nearest_of_eight(&dists, c, best_c, best_d, Ghost(xs));
            best_c = best.0;
            best_d = best.1;
            c = c + 8;
        }
        while c < k
            invariant
                in_full_groups(k as nat) <= c <= k,
                k == self@.len(),
                xs == candidates(self@, q@),
                is_nearest_so_far(xs, c as int, best_c as int, best_d),
            decreases k - c,
        {
            let d = self.centroid_dist_scalar(q, c);
            proof {
                assert(xs[c as int].dist == d);
                lemma_ranks_are_small(self@, q@, c as int);
            }
            if d < best_d {
                best_d = d;
                best_c = c;
            }
            c = c + 1;
        }
        proof {
            assert(is_nearest(xs, best_c as int));
            lemma_nearest_is(xs, best_c as int);
        }
        best_c
    }

    /// The clusters to probe, nearest first.
    #[verifier::rlimit(30)]
    fn rank_clusters(&self, q: &[i16; DIMS], nprobe: usize) -> (order: Vec<Ranked>)
        ensures
            order@ == probe_order(self@, q@, nprobe as nat),
    {
        let k = self.cluster_count();
        let most: usize = if nprobe < 64 {
            nprobe
        } else {
            64
        };
        let room: usize = if most < k {
            most
        } else {
            k
        };
        let ghost xs = candidates(self@, q@);
        let mut sel = Selection::new(room);
        let mut c: usize = 0;
        assert(xs.take(0) =~= Seq::<Ranked>::empty());
        while k - c >= 8
            invariant
                c <= k <= u32::MAX,
                c % 8 == 0,
                k == self@.len(),
                xs == candidates(self@, q@),
                sel.room() == room,
                sel@ == pick(xs.take(c as int), room as nat),
            decreases k - c,
        {
            let dists = self.dist8(q, c);
            for lane in 0..8
                invariant
                    c + 8 <= k <= u32::MAX,
                    c % 8 == 0,
                    k == self@.len(),
                    xs == candidates(self@, q@),
                    forall|lane: int|
                        0 <= lane < 8 ==> #[trigger] dists@[lane] == lane_dist(
                            q@,
                            self@[c + lane].centroid,
                        ),
                    sel.room() == room,
                    sel@ == pick(xs.take(c + lane), room as nat),
            {
                let x = Ranked { dist: dists[lane] as u64, tag: (c + lane) as u32 };
                proof {
                    lemma_lane_candidate(self@, q@, c as int, lane as int);
                    lemma_pick_next(xs, room as nat, c + lane);
                }
                sel.push_candidate(x);
            }
            c = c + 8;
        }
        while c < k
            invariant
                in_full_groups(k as nat) <= c <= k <= u32::MAX,
                k == self@.len(),
                xs == candidates(self@, q@),
                sel.room() == room,
                sel@ == pick(xs.take(c as int), room as nat),
            decreases k - c,
        {
            let x = Ranked { dist: self.centroid_dist_scalar(q, c), tag: c as u32 };
            proof {
                assert(xs[c as int] == x);
                lemma_pick_next(xs, room as nat, c as int);
            }
            sel.push_candidate(x);
            c = c + 1;
        }
        assert(xs.take(k as int) =~= xs);
        sel.into_sorted()
    }

    /// The neighbours of a query in the cluster with the nearest centroid, if
    /// there is one and it can be read.
    pub fn probe_top1(&self, q: &[i16; DIMS]) -> (res: Option<KnnHeap>)
        ensures
            match res {
                Some(heap) => can_top1(self@, q@) && heap@ == top1(self@, q@),
                None => !can_top1(self@, q@),
            },
    {
        if self.cluster_count() == 0 {
            return None;
        }
        let best_c = self.nearest_cluster(q);
        if !self.has_entries(best_c) {
            return None;
        }
        let mut heap = KnnHeap::new();
        self.probe_cluster(best_c, q, &mut heap);
        Some(heap)
    }

    /// The neighbours of a query in the `nprobe` clusters with the nearest
    /// centroids, of which no more than 64 are probed, if what is looked at
    /// of them can be read.
    pub fn probe_topn(&self, q: &[i16; DIMS], nprobe: usize) -> (res: Option<KnnHeap>)
        ensures
            match res {
                Some(heap) => can_topn(self@, q@, nprobe as nat) && heap@ == topn(
                    self@,
                    q@,
                    nprobe as nat,
                ),
                None => !can_topn(self@, q@, nprobe as nat),
            },
    {
        let order = self.rank_clusters(q, nprobe);
        let mut heap = KnnHeap::new();
        assert(order@.take(0) =~= Seq::<Ranked>::empty());
        for i in 0..order.len()
            invariant
                order@ == probe_order(self@, q@, nprobe as nat),
                heap@ == search_clusters(self@, q@, order@.take(i as int)),
                can_search(self@, q@, order@.take(i as int)),
        {
            proof {
                assert(order@.take(i + 1).drop_last() =~= order@.take(i as int));
                lemma_order_is_of_clusters(self@, q@, nprobe as nat, i as int);
            }
            let c = order[i].tag as usize;
            if i > 0 && !self.has_box(c) {
                proof {
                    assert(!can_search(self@, q@, order@.take(i + 1)));
                    lemma_cannot_search(self@, q@, order@, i + 1);
                }
                return None;
            }
            if i == 0 || self.bbox_lb(q, c) < heap.gate() {
                if !self.has_entries(c) {
                    proof {
                        assert(!can_search(self@, q@, order@.take(i + 1)));
                        lemma_cannot_search(self@, q@, order@, i + 1);
                    }
                    return None;
                }
                self.probe_cluster(c, q, &mut heap);
            }
        }
        assert(order@.take(order@.len() as int) =~= order@);
        Some(heap)
    }

    /// Finds the nearest centroid and probes its cluster.
    pub fn query_top1(&self, q: &[i16; DIMS]) -> (trace: QueryTrace)
        requires
            can_top1(self@, q@),
            label_sum(top1(self@, q@)) <= u8::MAX,
        ensures
            trace == trace_of(top1(self@, q@)),
    {
        let heap = self.probe_top1(q).unwrap();
        QueryTrace { fraud: heap.fraud_count(), final_worst: heap.gate() }
    }

    /// Ranks the centroids and probes the nearest `nprobe` clusters in order,
    /// passing over those whose bounding boxes are too far away.
    pub fn query_topn(&self, q: &[i16; DIMS], nprobe: usize) -> (trace: QueryTrace)
        requires
            can_topn(self@, q@, nprobe as nat),
            label_sum(topn(self@, q@, nprobe as nat)) <= u8::MAX,
        ensures
            trace == trace_of(topn(self@, q@, nprobe as nat)),
    {
        let heap = self.probe_topn(q, nprobe).unwrap();
        QueryTrace { fraud: heap.fraud_count(), final_worst: heap.gate() }
    }
}

} // verus!
