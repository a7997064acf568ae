//! What an index file holds, and what queries find in it.
use crate::bytes::{i16_at, u32_at, u64_at};
use crate::distance::{box_dist, dist, lane_dist};
use crate::heap::{fillers, label_sum};
use crate::layout::{
    bbox_max_at, bbox_min_at, blocks_at, centroids_at, counts_at, end_at, header_of, labels_at,
    offsets_at, BLOCK, DIMS, HEADER, MAGIC, VER,
};
use crate::ranked::{offer_all, splits, worst_dist, Ranked};
use crate::select::{law_selection_is_the_nearest_in_order, pick, sort};
use vstd::multiset::Multiset;
use vstd::prelude::*;

verus! {

/// A known transaction.
pub struct Entry {
    pub vector: Seq<i16>,
    pub label: u8,
}

/// A group of known transactions.
pub struct Cluster {
    pub centroid: Seq<i16>,
    /// The lower corner of the bounding box.
    pub lo: Seq<i16>,
    /// The upper corner of the bounding box.
    pub hi: Seq<i16>,
    /// The bounding box can be read: it lies in the file.
    pub box_in_file: bool,
    pub entries: Seq<Entry>,
    /// The entries can be read: they lie in the file.
    pub entries_in_file: bool,
}

/// The vector whose coordinates stand at `at`, one after the other.
pub open spec fn vector_at(data: Seq<u8>, at: int) -> Seq<i16> {
    Seq::new(DIMS as nat, |d: int| i16_at(data, at + 2 * d))
}

/// The `j`th entry of a cluster whose blocks start with block `first`. The
/// eight vectors of a block are interleaved, coordinate by coordinate.
pub open spec fn entry_at(data: Seq<u8>, k: nat, total_blocks: nat, first: int, j: int) -> Entry {
    let block = first + j / 8;
    let lane = j % 8;
    Entry {
        vector: Seq::new(
            DIMS as nat,
            |d: int|
                i16_at(data, blocks_at(k, total_blocks) + block * 224 + (d * 8 + lane) * 2),
        ),
        label: data[labels_at(k) + block * 8 + lane],
    }
}

/// The first block of cluster `c`.
pub open spec fn first_block(data: Seq<u8>, k: nat, c: int) -> int {
    u32_at(data, offsets_at(k) + c * 4) as int
}

/// The number of entries of cluster `c`.
pub open spec fn entry_count(data: Seq<u8>, k: nat, c: int) -> nat {
    u32_at(data, counts_at(k) + c * 4) as nat
}

/// Cluster `c` of an index file.
pub open spec fn cluster_at(data: Seq<u8>, k: nat, total_blocks: nat, c: int) -> Cluster {
    Cluster {
        centroid: vector_at(data, centroids_at() + c * 28),
        lo: vector_at(data, bbox_min_at(k) + c * 28),
        hi: vector_at(data, bbox_max_at(k) + c * 28),
        box_in_file: box_fits(data, k, c),
        entries: Seq::new(
            entry_count(data, k, c),
            |j: int| entry_at(data, k, total_blocks, first_block(data, k, c), j),
        ),
        entries_in_file: entries_fit(data, k, total_blocks, c),
    }
}

/// The clusters that an index file holds.
pub open spec fn decode(data: Seq<u8>) -> Seq<Cluster> {
    let k = header_of(data).k as nat;
    let total_blocks = header_of(data).total_blocks as nat;
    Seq::new(k, |c: int| cluster_at(data, k, total_blocks, c))
}

/// The bounding box of cluster `c` lies in the file.
pub open spec fn box_fits(data: Seq<u8>, k: nat, c: int) -> bool {
    bbox_max_at(k) + (c + 1) * 28 <= data.len()
}

/// One past the last byte of the vector in lane `lane` of block `block`. (Its
/// label stands before that.)
pub open spec fn lane_end(k: nat, total_blocks: nat, block: int, lane: int) -> int {
    blocks_at(k, total_blocks) + block * 224 + (13 * 8 + lane) * 2 + 2
}

/// Where the entries of cluster `c` begin and how many they are stands in the
/// file, and so do the entries.
pub open spec fn entries_fit(data: Seq<u8>, k: nat, total_blocks: nat, c: int) -> bool {
    let last = entry_count(data, k, c) - 1;
    &&& counts_at(k) + (c + 1) * 4 <= data.len()
    &&& last >= 0 ==> lane_end(k, total_blocks, first_block(data, k, c) + last / 8, last % 8)
        <= data.len()
}

/// What makes a file unusable as an index.
#[derive(Clone, Copy, Debug, PartialEq, Eq, Structural)]
pub enum OpenError {
    /// The file ends before its header and its centroids do, or announces
    /// sections that end beyond what the machine can address.
    Truncated,
    BadMagic,
    BadVersion,
    BadDims,
    BadBlockSize,
}

/// What is wrong with an index file, if anything is.
pub open spec fn file_error(data: Seq<u8>) -> Option<OpenError> {
    let hdr = header_of(data);
    if data.len() < HEADER {
        Some(OpenError::Truncated)
    } else if hdr.magic != MAGIC {
        Some(OpenError::BadMagic)
    } else if hdr.version != VER {
        Some(OpenError::BadVersion)
    } else if hdr.dims != DIMS {
        Some(OpenError::BadDims)
    } else if hdr.block_size != BLOCK {
        Some(OpenError::BadBlockSize)
    } else if bbox_min_at(hdr.k as nat) > data.len() || end_at(
        hdr.k as nat,
        hdr.total_blocks as nat,
    ) > usize::MAX {
        Some(OpenError::Truncated)
    } else {
        None
    }
}

/// The outcome of a query.
#[derive(Clone, Copy, Debug, PartialEq, Eq, Structural)]
pub struct QueryTrace {
    pub final_worst: u64,
    pub fraud: u8,
}

/// What a query reports of the neighbours it has found.
pub open spec fn trace_of(found: Seq<Ranked>) -> QueryTrace {
    QueryTrace { final_worst: worst_dist(found), fraud: label_sum(found) as u8 }
}

/// How many of `n` items stand in full groups of eight.
pub open spec fn in_full_groups(n: nat) -> int {
    n - n % 8
}

/// The distance by which centroid `c` is ranked. Centroids in full groups of
/// eight are measured in lanes.
pub open spec fn centroid_rank(clusters: Seq<Cluster>, q: Seq<i16>, c: int) -> Ranked {
    let centroid = clusters[c].centroid;
    Ranked {
        dist: if c < in_full_groups(clusters.len()) {
            lane_dist(q, centroid)
        } else {
            dist(q, centroid)
        },
        tag: c as u32,
    }
}

/// All clusters, ranked by their centroids.
pub open spec fn candidates(clusters: Seq<Cluster>, q: Seq<i16>) -> Seq<Ranked> {
    Seq::new(clusters.len(), |c: int| centroid_rank(clusters, q, c))
}

/// The distance by which the `j`th entry is ranked. Entries in full blocks are
/// measured in lanes.
pub open spec fn entry_rank(cluster: Cluster, q: Seq<i16>, j: int) -> Ranked {
    let entry = cluster.entries[j];
    Ranked {
        dist: if j < in_full_groups(cluster.entries.len()) {
            lane_dist(q, entry.vector)
        } else {
            dist(q, entry.vector)
        },
        tag: entry.label as u32,
    }
}

/// All entries of a cluster, ranked.
pub open spec fn scored(cluster: Cluster, q: Seq<i16>) -> Seq<Ranked> {
    Seq::new(cluster.entries.len(), |j: int| entry_rank(cluster, q, j))
}

/// `xs[i]` is as near as anything in `xs`, and nothing before it is.
pub open spec fn is_nearest(xs: Seq<Ranked>, i: int) -> bool {
    &&& 0 <= i < xs.len()
    &&& forall|j: int| 0 <= j < xs.len() ==> xs[i].dist <= (#[trigger] xs[j]).dist
    &&& forall|j: int| 0 <= j < i ==> xs[i].dist < (#[trigger] xs[j]).dist
}

/// The position of the first nearest of `xs`.
pub open spec fn nearest(xs: Seq<Ranked>) -> int {
    choose|i: int| is_nearest(xs, i)
}

/// The neighbours found in the cluster with the nearest centroid.
pub open spec fn top1(clusters: Seq<Cluster>, q: Seq<i16>) -> Seq<Ranked> {
    offer_all(fillers(), scored(clusters[nearest(candidates(clusters, q))], q))
}

/// The cluster with the nearest centroid exists, and its entries can be read.
pub open spec fn can_top1(clusters: Seq<Cluster>, q: Seq<i16>) -> bool {
    clusters.len() > 0 && clusters[nearest(candidates(clusters, q))].entries_in_file
}

/// How many clusters are probed when `nprobe` are asked for.
pub open spec fn probes(clusters: Seq<Cluster>, nprobe: nat) -> nat {
    let most: nat = if nprobe < 64 {
        nprobe
    } else {
        64
    };
    if most < clusters.len() {
        most
    } else {
        clusters.len()
    }
}

/// The clusters that are probed, nearest first.
pub open spec fn probe_order(clusters: Seq<Cluster>, q: Seq<i16>, nprobe: nat) -> Seq<Ranked> {
    sort(pick(candidates(clusters, q), probes(clusters, nprobe)))
}

/// The box of a cluster comes no closer than the worst neighbour found.
pub open spec fn is_out_of_reach(cluster: Cluster, q: Seq<i16>, found: Seq<Ranked>) -> bool {
    box_dist(q, cluster.lo, cluster.hi) >= worst_dist(found)
}

/// The neighbours found in the clusters of `order`. The first cluster is
/// always searched, a later one only if it is in reach of what was found
/// before.
pub open spec fn search_clusters(clusters: Seq<Cluster>, q: Seq<i16>, order: Seq<Ranked>) -> Seq<
    Ranked,
>
    decreases order.len(),
{
    if order.len() == 0 {
        fillers()
    } else {
        let found = search_clusters(clusters, q, order.drop_last());
        let cluster = clusters[order.last().tag as int];
        if order.len() > 1 && is_out_of_reach(cluster, q, found) {
            found
        } else {
            offer_all(found, scored(cluster, q))
        }
    }
}

/// What is looked at of the clusters of `order` can be read: the box of each
/// but the first, and the entries of those that are searched.
pub open spec fn can_search(clusters: Seq<Cluster>, q: Seq<i16>, order: Seq<Ranked>) -> bool
    decreases order.len(),
{
    order.len() > 0 ==> {
        let earlier = order.drop_last();
        let cluster = clusters[order.last().tag as int];
        &&& can_search(clusters, q, earlier)
        &&& order.len() > 1 ==> cluster.box_in_file
        &&& cluster.entries_in_file || order.len() > 1 && is_out_of_reach(
            cluster,
            q,
            search_clusters(clusters, q, earlier),
        )
    }
}

/// The neighbours found in the `nprobe` clusters with the nearest centroids.
pub open spec fn topn(clusters: Seq<Cluster>, q: Seq<i16>, nprobe: nat) -> Seq<Ranked> {
    search_clusters(clusters, q, probe_order(clusters, q, nprobe))
}

/// What is looked at of these can be read.
pub open spec fn can_topn(clusters: Seq<Cluster>, q: Seq<i16>, nprobe: nat) -> bool {
    can_search(clusters, q, probe_order(clusters, q, nprobe))
}

/// There is only one first nearest.
pub proof fn lemma_nearest_is(xs: Seq<Ranked>, i: int)
    requires
        is_nearest(xs, i),
    ensures
        nearest(xs) == i,
{
    let n = nearest(xs);
    assert(is_nearest(xs, n));
    if n < i {
        assert(xs[i].dist < xs[n].dist);
    } else if i < n {
        assert(xs[n].dist < xs[i].dist);
    }
}

/// What is probed are clusters of the index, each with its rank.
pub proof fn lemma_order_is_of_clusters(clusters: Seq<Cluster>, q: Seq<i16>, nprobe: nat, i: int)
    requires
        0 <= i < probe_order(clusters, q, nprobe).len(),
        clusters.len() <= u32::MAX,
    ensures
        ({
            let x = probe_order(clusters, q, nprobe)[i];
            &&& 0 <= x.tag < clusters.len()
            &&& x == centroid_rank(clusters, q, x.tag as int)
        }),
{
    broadcast use vstd::seq_lib::group_to_multiset_ensures;
    broadcast use vstd::multiset::group_multiset_axioms;

    let xs = candidates(clusters, q);
    let n = probes(clusters, nprobe);
    let order = probe_order(clusters, q, nprobe);
    law_selection_is_the_nearest_in_order(xs, n);
    let rest = choose|rest: Multiset<Ranked>| #[trigger] splits(order, rest, xs.to_multiset());
    let x = order[i];
    assert(order.contains(x));
    assert(order.to_multiset().count(x) > 0);
    assert(xs.to_multiset().count(x) > 0);
    assert(xs.contains(x));
}

/// A file is an index if it starts with the magic number, version 1, blocks of
/// eight and vectors of fourteen, and reaches behind its centroids; otherwise
/// the first of these that fails is what is wrong with it.
pub proof fn law_files_are_judged_by_their_headers(data: Seq<u8>)
    ensures
        data.len() < 64 ==> file_error(data) == Some(OpenError::Truncated),
        data.len() >= 64 ==> {
            let magic = u64_at(data, 0) == 0x3149_5649_3632_4852;
            let version = u32_at(data, 8) == 1;
            let dims = u32_at(data, 28) == 14;
            let block_size = u32_at(data, 24) == 8;
            let k = u32_at(data, 16);
            let total_blocks = u32_at(data, 20);
            let complete = 64 + k * 28 <= data.len() && 68 + k * 92 + total_blocks * 232
                <= usize::MAX;
            &&& !magic <==> file_error(data) == Some(OpenError::BadMagic)
            &&& magic && !version <==> file_error(data) == Some(OpenError::BadVersion)
            &&& magic && version && !dims <==> file_error(data) == Some(OpenError::BadDims)
            &&& magic && version && dims && !block_size <==> file_error(data) == Some(
                OpenError::BadBlockSize,
            )
            &&& magic && version && dims && block_size && !complete <==> file_error(data) == Some(
                OpenError::Truncated,
            )
            &&& magic && version && dims && block_size && complete <==> file_error(data) is None
        },
{
}

/// Where an index file holds what: coordinate `d` of the centroid of cluster
/// `c`, the corners of its box, the number of its entries, and of its `j`th
/// entry the label and coordinate `d`, eight entries to a block and their
/// coordinates interleaved.
pub proof fn law_clusters_stand_in_the_file(data: Seq<u8>, c: int, j: int, d: int)
    requires
        0 <= c < u32_at(data, 16),
        0 <= d < 14,
    ensures
        ({
            let k = u32_at(data, 16);
            let labels = 68 + 92 * k;
            let blocks = labels + 8 * u32_at(data, 20);
            let first = u32_at(data, 64 + 84 * k + 4 * c);
            let count = u32_at(data, 68 + 88 * k + 4 * c);
            let cluster = decode(data)[c];
            &&& decode(data).len() == k
            &&& cluster.centroid.len() == 14 && cluster.centroid[d] == i16_at(
                data,
                64 + 28 * c + 2 * d,
            )
            &&& cluster.lo.len() == 14 && cluster.lo[d] == i16_at(
                data,
                64 + 28 * k + 28 * c + 2 * d,
            )
            &&& cluster.hi.len() == 14 && cluster.hi[d] == i16_at(
                data,
                64 + 56 * k + 28 * c + 2 * d,
            )
            &&& cluster.entries.len() == count
            &&& 0 <= j < count ==> {
                let block = first + j / 8;
                let entry = cluster.entries[j];
                &&& entry.label == data[labels + 8 * block + j % 8]
                &&& entry.vector.len() == 14 && entry.vector[d] == i16_at(
                    data,
                    blocks + 224 * block + 16 * d + 2 * (j % 8),
                )
            }
            &&& cluster.box_in_file <==> 64 + 56 * k + 28 * (c + 1) <= data.len()
            &&& cluster.entries_in_file <==> 68 + 88 * k + 4 * (c + 1) <= data.len() && (count > 0
                ==> blocks + 224 * (first + (count - 1) / 8) + 210 + 2 * ((count - 1) % 8)
                <= data.len())
        }),
{
    let k = u32_at(data, 16);
    assert(decode(data)[c] == cluster_at(data, k as nat, u32_at(data, 20) as nat, c));
    assert(first_block(data, k as nat, c) == u32_at(data, 64 + 84 * k + 4 * c));
    assert(entry_count(data, k as nat, c) == u32_at(data, 68 + 88 * k + 4 * c));
}

/// Clusters are ranked under their numbers by the distances of their
/// centroids, and the entries of a cluster under their labels by theirs; what
/// belongs to a full group of eight is measured in lanes.
pub proof fn law_ranks_are_distances(clusters: Seq<Cluster>, q: Seq<i16>, c: int, j: int)
    requires
        0 <= c < clusters.len() <= u32::MAX,
    ensures
        ({
            let n = clusters.len() as int;
            let m = clusters[c].entries.len() as int;
            let rank = candidates(clusters, q)[c];
            &&& candidates(clusters, q).len() == n
            &&& rank.tag == c
            &&& c / 8 < n / 8 ==> rank.dist == lane_dist(q, clusters[c].centroid)
            &&& c / 8 == n / 8 ==> rank.dist == dist(q, clusters[c].centroid)
            &&& scored(clusters[c], q).len() == m
            &&& 0 <= j < m ==> {
                let scored = scored(clusters[c], q)[j];
                let entry = clusters[c].entries[j];
                &&& scored.tag == entry.label
                &&& j / 8 < m / 8 ==> scored.dist == lane_dist(q, entry.vector)
                &&& j / 8 == m / 8 ==> scored.dist == dist(q, entry.vector)
            }
        }),
{
}

/// The query of the nearest cluster looks through the entries of the one whose
/// centroid is nearest, the first of several, and needs only those.
pub proof fn law_nearest_cluster_is_searched(clusters: Seq<Cluster>, q: Seq<i16>, i: int)
    requires
        0 <= i < clusters.len(),
        forall|c: int|
            0 <= c < clusters.len() ==> candidates(clusters, q)[i].dist <= (
            #[trigger] candidates(clusters, q)[c]).dist,
        forall|c: int|
            0 <= c < i ==> candidates(clusters, q)[i].dist < (#[trigger] candidates(
                clusters,
                q,
            )[c]).dist,
    ensures
        top1(clusters, q) == offer_all(fillers(), scored(clusters[i], q)),
        can_top1(clusters, q) <==> clusters[i].entries_in_file,
{
    assert(is_nearest(candidates(clusters, q), i));
    lemma_nearest_is(candidates(clusters, q), i);
}

/// Clusters are searched one after the other. The first is searched in any
/// case, a later one if and only if its box lies closer than the worst
/// neighbour found so far; and only what is looked at has to be in the file.
pub proof fn law_clusters_are_searched_in_order(
    clusters: Seq<Cluster>,
    q: Seq<i16>,
    order: Seq<Ranked>,
    x: Ranked,
    nprobe: nat,
)
    ensures
        ({
            let found = search_clusters(clusters, q, order);
            let cluster = clusters[x.tag as int];
            let near = box_dist(q, cluster.lo, cluster.hi) < worst_dist(found);
            &&& search_clusters(clusters, q, Seq::empty()) == fillers()
            &&& order.len() == 0 || near ==> search_clusters(clusters, q, order.push(x))
                == offer_all(found, scored(cluster, q))
            &&& order.len() > 0 && !near ==> search_clusters(clusters, q, order.push(x)) == found
            &&& can_search(clusters, q, Seq::empty())
            &&& can_search(clusters, q, order.push(x)) <==> can_search(clusters, q, order) && (
            order.len() > 0 ==> cluster.box_in_file) && (order.len() == 0 || near
                ==> cluster.entries_in_file)
        }),
        topn(clusters, q, nprobe) == search_clusters(
            clusters,
            q,
            probe_order(clusters, q, nprobe),
        ),
        can_topn(clusters, q, nprobe) == can_search(clusters, q, probe_order(clusters, q, nprobe)),
{
    assert(order.push(x).drop_last() =~= order);
}

/// A query reports how far its worst neighbour is and the sum of the labels.
pub proof fn law_traces_tell_worst_and_sum(found: Seq<Ranked>)
    requires
        label_sum(found) <= 255,
    ensures
        trace_of(found).final_worst == worst_dist(found),
        trace_of(found).fraud == label_sum(found),
{
}

} // verus!
