//! How hard to look: a fast query first, and a thorough one where the fast one
//! does not settle the matter.
use crate::exactness::{law_one_probe_is_the_nearest, law_probes_are_capped};
use crate::heap::{label_sum, KnnHeap};
use crate::index::IvfIndex;
use crate::layout::DIMS;
use crate::model::{
    can_search, can_top1, can_topn, lemma_order_is_of_clusters, probe_order, scored,
    search_clusters, top1, topn, trace_of, Cluster, QueryTrace,
};
use crate::ranked::{lemma_first_worst, offer_all, worst_dist, Ranked};
use vstd::prelude::*;

verus! {

/// The settings of the search.
#[derive(Clone, Copy)]
pub struct Config {
    /// How many clusters the thorough query probes.
    pub nprobe: usize,
    /// How many clusters the fast query probes; 0 for no fast query.
    pub fast_nprobe: usize,
    /// The least count that the fast query does not settle.
    pub adapt_min: u8,
    /// The largest count that the fast query does not settle.
    pub adapt_max: u8,
    /// From which distance of the worst neighbour on a count of 0 is doubted;
    /// 0 for never.
    pub thr0: u64,
    /// The same for a count of 1.
    pub thr1: u64,
    /// The same for a count of 5.
    pub thr5: u64,
    /// The same for any count.
    pub thr_any: u64,
}

impl Default for Config {
    /// The settings to search with unless told otherwise.
    fn default() -> (cfg: Self)
        ensures
            cfg.nprobe == 64,
            cfg.fast_nprobe == 4,
            cfg.adapt_min == 2,
            cfg.adapt_max == 4,
            cfg.thr0 == 3501932,
            cfg.thr1 == 3569273,
            cfg.thr5 == 4594089,
            cfg.thr_any == 0,
    {
        Config {
            nprobe: 64,
            fast_nprobe: 4,
            adapt_min: 2,
            adapt_max: 4,
            thr0: 3501932,
            thr1: 3569273,
            thr5: 4594089,
            thr_any: 0,
        }
    }
}

/// What a query reports. There is nothing to report if it comes to bytes
/// that the file lacks, or if the labels add up to more than a byte holds.
pub open spec fn reported(found: Option<Seq<Ranked>>) -> Option<QueryTrace> {
    match found {
        Some(f) => if label_sum(f) <= u8::MAX {
            Some(trace_of(f))
        } else {
            None
        },
        None => None,
    }
}

/// No more than five neighbours can be fraudulent.
pub open spec fn capped(trace: Option<QueryTrace>) -> Option<u8> {
    match trace {
        Some(t) => Some(
            if t.fraud < 5 {
                t.fraud
            } else {
                5
            },
        ),
        None => None,
    }
}

impl Config {
    /// There is a fast query, and it is faster than the thorough one.
    pub open spec fn has_fast_query(self) -> bool {
        0 < self.fast_nprobe < self.nprobe
    }

    /// The threshold for a count.
    pub open spec fn threshold(self, count: u8) -> u64 {
        if count == 0 {
            self.thr0
        } else if count == 1 {
            self.thr1
        } else if count == 5 {
            self.thr5
        } else {
            0
        }
    }

    /// The outcome of the fast query stands: its count is clear, and the
    /// worst neighbour is near enough.
    pub open spec fn is_settled(self, fast: QueryTrace) -> bool {
        &&& fast.fraud < self.adapt_min || fast.fraud > self.adapt_max
        &&& self.thr_any > 0 ==> fast.final_worst < self.thr_any
        &&& self.threshold(fast.fraud) > 0 ==> fast.final_worst < self.threshold(fast.fraud)
    }

    /// Tells whether the outcome of the fast query stands.
    pub fn settles(&self, fast: QueryTrace) -> (yes: bool)
        ensures
            yes == self.is_settled(fast),
            yes == !((self.adapt_min <= fast.fraud && fast.fraud <= self.adapt_max) || (self.thr_any
                > 0 && fast.final_worst >= self.thr_any) || (fast.fraud == 0 && self.thr0 > 0
                && fast.final_worst >= self.thr0) || (fast.fraud == 1 && self.thr1 > 0
                && fast.final_worst >= self.thr1) || (fast.fraud == 5 && self.thr5 > 0
                && fast.final_worst >= self.thr5)),
    {
        let r = fast.fraud;
        if r >= self.adapt_min && r <= self.adapt_max {
            return false;
        }
        let thr: u64 = match r {
            0 => self.thr0,
            1 => self.thr1,
            5 => self.thr5,
            _ => 0,
        };
        let rerun = (self.thr_any > 0 && fast.final_worst >= self.thr_any) || (thr > 0
            && fast.final_worst >= thr);
        !rerun
    }
}

/// The neighbours found in the `nprobe` clusters with the nearest centroids,
/// if they can be read.
pub open spec fn query(clusters: Seq<Cluster>, q: Seq<i16>, nprobe: nat) -> Option<Seq<Ranked>> {
    if can_topn(clusters, q, nprobe) {
        Some(topn(clusters, q, nprobe))
    } else {
        None
    }
}

/// The neighbours that the fast query finds. Probing only the nearest cluster
/// takes an index that has one.
pub open spec fn fast_query(clusters: Seq<Cluster>, cfg: Config, q: Seq<i16>) -> Option<Seq<Ranked>> {
    if cfg.fast_nprobe != 1 {
        query(clusters, q, cfg.fast_nprobe as nat)
    } else if can_top1(clusters, q) {
        Some(top1(clusters, q))
    } else {
        None
    }
}

/// The number of fraudulent neighbours, from 0 to 5.
pub open spec fn search(clusters: Seq<Cluster>, cfg: Config, q: Seq<i16>) -> Option<u8> {
    let thorough = capped(reported(query(clusters, q, cfg.nprobe as nat)));
    if cfg.has_fast_query() {
        match reported(fast_query(clusters, cfg, q)) {
            Some(fast) => if cfg.is_settled(fast) {
                capped(Some(fast))
            } else {
                thorough
            },
            None => None,
        }
    } else {
        thorough
    }
}

fn report(heap: Option<KnnHeap>) -> (trace: Option<QueryTrace>)
    ensures
        trace == reported(
            match heap {
                Some(h) => Some(h@),
                None => None,
            },
        ),
{
    match heap {
        Some(h) => if h.label_total() <= u8::MAX as u16 {
            Some(QueryTrace { fraud: h.fraud_count(), final_worst: h.gate() })
        } else {
            None
        },
        None => None,
    }
}

fn cap(trace: Option<QueryTrace>) -> (r: Option<u8>)
    ensures
        r == capped(trace),
{
    match trace {
        Some(t) => Some(
            if t.fraud < 5 {
                t.fraud
            } else {
                5
            },
        ),
        None => None,
    }
}

/// Searches the index. There is no outcome if a query finds labels that add up
/// to more than a byte holds, comes to bytes that the file lacks, or has to
/// probe the nearest cluster of an index without clusters.
pub fn try_search(idx: &IvfIndex, cfg: &Config, q: &[i16; DIMS]) -> (res: Option<u8>)
    ensures
        res == search(idx@, *cfg, q@),
{
    if cfg.fast_nprobe > 0 && cfg.fast_nprobe < cfg.nprobe {
        let heap = if cfg.fast_nprobe == 1 {
            idx.probe_top1(q)
        } else {
            idx.probe_topn(q, cfg.fast_nprobe)
        };
        match report(heap) {
            Some(tr) => {
                if cfg.settles(tr) {
                    return cap(Some(tr));
                }
            },
            None => {
                return None;
            },
        }
    }
    cap(report(idx.probe_topn(q, cfg.nprobe)))
}

/// Searches an index on which the search has an outcome.
pub fn do_search(idx: &IvfIndex, cfg: &Config, q: &[i16; DIMS]) -> (count: u8)
    requires
        search(idx@, *cfg, q@) is Some,
    ensures
        search(idx@, *cfg, q@) == Some(count),
        count <= 5,
{
    match try_search(idx, cfg, q) {
        Some(count) => count,
        None => 0,
    }
}

/// No label exceeds `most`.
pub open spec fn labels_up_to(clusters: Seq<Cluster>, most: u8) -> bool {
    forall|c: int, j: int|
        0 <= c < clusters.len() && 0 <= j < clusters[c].entries.len() ==> (
        #[trigger] clusters[c].entries[j]).label <= most
}

spec fn tags_up_to(s: Seq<Ranked>, most: u8) -> bool {
    forall|i: int| 0 <= i < s.len() ==> (#[trigger] s[i]).tag <= most
}

proof fn lemma_offers_keep_tags(s: Seq<Ranked>, xs: Seq<Ranked>, most: u8)
    requires
        tags_up_to(s, most),
        tags_up_to(xs, most),
    ensures
        tags_up_to(offer_all(s, xs), most),
        offer_all(s, xs).len() == s.len(),
    decreases xs.len(),
{
    if xs.len() > 0 {
        assert(xs.last() == xs[xs.len() - 1]);
        lemma_offers_keep_tags(s, xs.drop_last(), most);
        let t = offer_all(s, xs.drop_last());
        if t.len() > 0 {
            lemma_first_worst(t);
        }
    }
}

proof fn lemma_found_tags(clusters: Seq<Cluster>, q: Seq<i16>, order: Seq<Ranked>, most: u8)
    requires
        labels_up_to(clusters, most),
        forall|i: int| 0 <= i < order.len() ==> (#[trigger] order[i]).tag < clusters.len(),
    ensures
        tags_up_to(search_clusters(clusters, q, order), most),
        search_clusters(clusters, q, order).len() == 5,
    decreases order.len(),
{
    if order.len() > 0 {
        let c = order.last().tag as int;
        assert(order.last() == order[order.len() - 1]);
        lemma_found_tags(clusters, q, order.drop_last(), most);
        let ranks = scored(clusters[c], q);
        assert forall|j: int| 0 <= j < ranks.len() implies (#[trigger] ranks[j]).tag <= most by {
            assert(clusters[c].entries[j].label <= most);
        }
        lemma_offers_keep_tags(search_clusters(clusters, q, order.drop_last()), ranks, most);
    }
}

proof fn lemma_topn_tags(clusters: Seq<Cluster>, q: Seq<i16>, nprobe: nat, most: u8)
    requires
        clusters.len() <= u32::MAX,
        labels_up_to(clusters, most),
    ensures
        label_sum(topn(clusters, q, nprobe)) <= 5 * most,
{
    let order = probe_order(clusters, q, nprobe);
    assert forall|i: int| 0 <= i < order.len() implies (#[trigger] order[i]).tag
        < clusters.len() by {
        lemma_order_is_of_clusters(clusters, q, nprobe, i);
    }
    lemma_found_tags(clusters, q, order, most);
    lemma_label_sum(topn(clusters, q, nprobe), most);
}

proof fn lemma_label_sum(s: Seq<Ranked>, most: u8)
    requires
        tags_up_to(s, most),
    ensures
        label_sum(s) <= s.len() * most,
    decreases s.len(),
{
    if s.len() > 0 {
        assert(s.last() == s[s.len() - 1]);
        lemma_label_sum(s.drop_last(), most);
        assert((s.len() - 1) * most + most == s.len() * most) by (nonlinear_arith);
    }
}

/// The boxes and the entries of all clusters can be read.
pub open spec fn are_in_file(clusters: Seq<Cluster>) -> bool {
    forall|c: int|
        0 <= c < clusters.len() ==> (#[trigger] clusters[c]).box_in_file
            && clusters[c].entries_in_file
}

proof fn lemma_can_search(clusters: Seq<Cluster>, q: Seq<i16>, order: Seq<Ranked>)
    requires
        are_in_file(clusters),
        forall|i: int| 0 <= i < order.len() ==> (#[trigger] order[i]).tag < clusters.len(),
    ensures
        can_search(clusters, q, order),
    decreases order.len(),
{
    if order.len() > 0 {
        assert(order.last() == order[order.len() - 1]);
        lemma_can_search(clusters, q, order.drop_last());
    }
}

proof fn lemma_can_topn(clusters: Seq<Cluster>, q: Seq<i16>, nprobe: nat)
    requires
        clusters.len() <= u32::MAX,
        are_in_file(clusters),
    ensures
        can_topn(clusters, q, nprobe),
{
    let order = probe_order(clusters, q, nprobe);
    assert forall|i: int| 0 <= i < order.len() implies (#[trigger] order[i]).tag
        < clusters.len() by {
        lemma_order_is_of_clusters(clusters, q, nprobe, i);
    }
    lemma_can_search(clusters, q, order);
}

/// On an index that has clusters, all of them readable, and labels up to 51,
/// every search has an outcome. Where the labels are 0 and 1, the outcome is
/// the number of fraudulent neighbours of the query that settled the matter.
pub proof fn law_search_has_an_outcome(clusters: Seq<Cluster>, cfg: Config, q: Seq<i16>)
    requires
        0 < clusters.len() <= u32::MAX,
        are_in_file(clusters),
        labels_up_to(clusters, 51),
    ensures
        search(clusters, cfg, q) matches Some(count) && count <= 5,
        labels_up_to(clusters, 1) ==> ({
            let fast = fast_query(clusters, cfg, q)->0;
            let thorough = topn(clusters, q, cfg.nprobe as nat);
            let count = search(clusters, cfg, q)->0;
            count == if cfg.has_fast_query() && cfg.is_settled(trace_of(fast)) {
                label_sum(fast)
            } else {
                label_sum(thorough)
            }
        }),
{
    lemma_topn_tags(clusters, q, cfg.nprobe as nat, 51);
    lemma_topn_tags(clusters, q, cfg.fast_nprobe as nat, 51);
    lemma_can_topn(clusters, q, cfg.nprobe as nat);
    lemma_can_topn(clusters, q, cfg.fast_nprobe as nat);
    law_one_probe_is_the_nearest(clusters, q);
    if labels_up_to(clusters, 1) {
        lemma_topn_tags(clusters, q, cfg.nprobe as nat, 1);
        lemma_topn_tags(clusters, q, cfg.fast_nprobe as nat, 1);
    }
}

/// What the thorough query has to say: the number of fraudulent neighbours in
/// the `nprobe` clusters with the nearest centroids, held to five.
pub open spec fn thorough_count(
    clusters: Seq<Cluster>,
    cfg: Config,
    q: Seq<i16>,
    count: Option<u8>,
) -> bool {
    let sum = label_sum(topn(clusters, q, cfg.nprobe as nat));
    if can_topn(clusters, q, cfg.nprobe as nat) && sum <= 255 {
        count is Some && (sum <= 5 ==> count->0 == sum) && (sum > 5 ==> count->0 == 5)
    } else {
        count is None
    }
}

/// Without a fast query, which is one that probes some clusters but fewer than
/// the thorough one, the thorough query decides.
pub proof fn law_thorough_query_decides_alone(clusters: Seq<Cluster>, cfg: Config, q: Seq<i16>)
    requires
        cfg.fast_nprobe == 0 || cfg.fast_nprobe >= cfg.nprobe,
    ensures
        thorough_count(clusters, cfg, q, search(clusters, cfg, q)),
{
}

/// With a fast query, its outcome stands unless there is doubt. There is doubt
/// if its count lies from `adapt_min` to `adapt_max`, or if the worst neighbour
/// is as far away as the threshold for any count or the one for its count, as
/// far as these are set. Then the thorough query decides.
pub proof fn law_doubt_is_settled_by_the_thorough_query(
    clusters: Seq<Cluster>,
    cfg: Config,
    q: Seq<i16>,
)
    requires
        0 < cfg.fast_nprobe < cfg.nprobe,
        0 < clusters.len() <= u32::MAX,
    ensures
        ({
            let fast = topn(clusters, q, cfg.fast_nprobe as nat);
            let count = label_sum(fast);
            let far = worst_dist(fast);
            let doubt = (cfg.adapt_min <= count && count <= cfg.adapt_max) || (cfg.thr_any > 0 && far
                >= cfg.thr_any) || (count == 0 && cfg.thr0 > 0 && far >= cfg.thr0) || (count == 1
                && cfg.thr1 > 0 && far >= cfg.thr1) || (count == 5 && cfg.thr5 > 0 && far
                >= cfg.thr5);
            let outcome = search(clusters, cfg, q);
            if !can_topn(clusters, q, cfg.fast_nprobe as nat) || count > 255 {
                outcome is None
            } else if doubt {
                thorough_count(clusters, cfg, q, outcome)
            } else {
                outcome is Some && (count <= 5 ==> outcome->0 == count) && (count > 5 ==> outcome->0
                    == 5)
            }
        }),
{
    law_one_probe_is_the_nearest(clusters, q);
}

/// On an index without clusters a fast query of the nearest cluster has no
/// outcome, and any other finds nobody.
pub proof fn law_empty_index(cfg: Config, q: Seq<i16>)
    ensures
        ({
            let outcome = search(Seq::empty(), cfg, q);
            &&& cfg.fast_nprobe == 1 && 1 < cfg.nprobe ==> outcome is None
            &&& !(cfg.fast_nprobe == 1 && 1 < cfg.nprobe) ==> outcome == Some(0u8)
        }),
{
    law_probes_are_capped(Seq::empty(), q, cfg.nprobe as nat);
    law_probes_are_capped(Seq::empty(), q, cfg.fast_nprobe as nat);
    reveal_with_fuel(label_sum, 6);
}

} // verus!
