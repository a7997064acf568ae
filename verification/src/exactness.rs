//! What a query may be relied on to find.
use crate::distance::{
    dist, fits_lanes, in_box, is_feature_vector, law_box_bounds_from_below,
    law_lane_dist_is_the_distance, law_lanes_are_exact_on_features,
};
use crate::heap::{fillers, label_sum};
use crate::model::{
    can_search, can_top1, can_topn, candidates, in_full_groups, is_nearest, is_out_of_reach,
    lemma_nearest_is, lemma_order_is_of_clusters, nearest, probe_order, probes, scored,
    search_clusters, top1, topn, trace_of, Cluster, QueryTrace,
};
use crate::ranked::{
    first_worst, is_first_worst, keeps_nearest, lemma_first_worst, lemma_first_worst_is,
    lemma_keeps_itself, lemma_offer_all_concat, lemma_offer_all_keeps_nearest, lemma_offer_all_len,
    lemma_offers_come_closer, offer_all, splits, worst_dist, Ranked,
};
use crate::select::{is_sorted, law_selection_is_the_nearest_in_order, pick, sort};
use vstd::multiset::Multiset;
use vstd::prelude::*;

verus! {

/// The entries lie in the bounding box.
pub open spec fn is_boxed(cluster: Cluster) -> bool {
    forall|j: int|
        0 <= j < cluster.entries.len() ==> in_box(
            (#[trigger] cluster.entries[j]).vector,
            cluster.lo,
            cluster.hi,
        )
}

/// The entries that are measured in lanes are measured exactly from `q`.
pub open spec fn is_measurable(cluster: Cluster, q: Seq<i16>) -> bool {
    forall|j: int|
        0 <= j < in_full_groups(cluster.entries.len()) ==> fits_lanes(
            q,
            (#[trigger] cluster.entries[j]).vector,
        )
}

/// The entries are vectors of transactions.
pub open spec fn holds_features(cluster: Cluster) -> bool {
    forall|j: int|
        0 <= j < cluster.entries.len() ==> is_feature_vector(
            (#[trigger] cluster.entries[j]).vector,
        )
}

/// The entries of a cluster with their squared distances from `q`.
pub open spec fn exact_ranks(cluster: Cluster, q: Seq<i16>) -> Seq<Ranked> {
    Seq::new(
        cluster.entries.len(),
        |j: int|
            Ranked {
                dist: dist(q, cluster.entries[j].vector),
                tag: cluster.entries[j].label as u32,
            },
    )
}

/// The entries of all clusters of `order`, with their squared distances.
pub open spec fn ranks_of_all(clusters: Seq<Cluster>, q: Seq<i16>, order: Seq<Ranked>) -> Seq<Ranked>
    decreases order.len(),
{
    if order.len() == 0 {
        Seq::empty()
    } else {
        ranks_of_all(clusters, q, order.drop_last()) + exact_ranks(
            clusters[order.last().tag as int],
            q,
        )
    }
}

/// The entries of the first `n` clusters, with their squared distances.
pub open spec fn whole_index(clusters: Seq<Cluster>, q: Seq<i16>, n: int) -> Multiset<Ranked>
    decreases n,
{
    if n <= 0 {
        Multiset::empty()
    } else {
        whole_index(clusters, q, n - 1).add(exact_ranks(clusters[n - 1], q).to_multiset())
    }
}

/// All items of `order` are clusters of the index.
pub open spec fn is_of_clusters(clusters: Seq<Cluster>, order: Seq<Ranked>) -> bool {
    forall|i: int| 0 <= i < order.len() ==> (#[trigger] order[i]).tag < clusters.len()
}

/// The entries of all clusters lie in their boxes and are measured exactly
/// from `q`.
pub open spec fn are_sound(clusters: Seq<Cluster>, q: Seq<i16>) -> bool {
    forall|c: int|
        0 <= c < clusters.len() ==> is_boxed(#[trigger] clusters[c]) && is_measurable(
            clusters[c],
            q,
        )
}

/// Between vectors of transactions all entries are measured exactly.
pub proof fn law_transactions_are_measured_exactly(clusters: Seq<Cluster>, q: Seq<i16>)
    requires
        is_feature_vector(q),
        forall|c: int|
            0 <= c < clusters.len() ==> is_boxed(#[trigger] clusters[c]) && holds_features(
                clusters[c],
            ),
    ensures
        are_sound(clusters, q),
{
    assert forall|c: int| 0 <= c < clusters.len() implies is_measurable(
        #[trigger] clusters[c],
        q,
    ) by {
        assert forall|j: int| 0 <= j < in_full_groups(clusters[c].entries.len()) implies fits_lanes(
            q,
            (#[trigger] clusters[c].entries[j]).vector,
        ) by {
            law_lanes_are_exact_on_features(q, clusters[c].entries[j].vector);
        }
    }
}

proof fn lemma_scored_is_exact(cluster: Cluster, q: Seq<i16>)
    requires
        is_measurable(cluster, q),
    ensures
        scored(cluster, q) == exact_ranks(cluster, q),
{
    assert forall|j: int| 0 <= j < cluster.entries.len() implies scored(cluster, q)[j]
        == exact_ranks(cluster, q)[j] by {
        if j < in_full_groups(cluster.entries.len()) {
            assert(fits_lanes(q, cluster.entries[j].vector));
            law_lane_dist_is_the_distance(q, cluster.entries[j].vector);
        }
    }
    assert(scored(cluster, q) =~= exact_ranks(cluster, q));
}

/// What is no closer than the worst is not taken in.
proof fn lemma_offers_refused(s: Seq<Ranked>, xs: Seq<Ranked>)
    requires
        forall|j: int| 0 <= j < xs.len() ==> worst_dist(s) <= (#[trigger] xs[j]).dist,
    ensures
        offer_all(s, xs) == s,
    decreases xs.len(),
{
    if xs.len() > 0 {
        assert(xs.last() == xs[xs.len() - 1]);
        lemma_offers_refused(s, xs.drop_last());
    }
}

/// Passing over clusters whose boxes are too far away loses nothing: the
/// neighbours found are those found by looking at every entry of every
/// cluster in turn.
pub proof fn law_pruning_loses_nothing(clusters: Seq<Cluster>, q: Seq<i16>, order: Seq<Ranked>)
    requires
        are_sound(clusters, q),
        is_of_clusters(clusters, order),
    ensures
        search_clusters(clusters, q, order) == offer_all(
            fillers(),
            ranks_of_all(clusters, q, order),
        ),
    decreases order.len(),
{
    if order.len() > 0 {
        let earlier = order.drop_last();
        let cluster = clusters[order.last().tag as int];
        assert(order.last() == order[order.len() - 1]);
        assert(is_of_clusters(clusters, earlier));
        law_pruning_loses_nothing(clusters, q, earlier);
        assert(is_boxed(cluster) && is_measurable(cluster, q));
        lemma_scored_is_exact(cluster, q);
        let found = search_clusters(clusters, q, earlier);
        let ranks = exact_ranks(cluster, q);
        lemma_offer_all_concat(fillers(), ranks_of_all(clusters, q, earlier), ranks);
        if order.len() > 1 && is_out_of_reach(cluster, q, found) {
            assert forall|j: int| 0 <= j < ranks.len() implies worst_dist(found) <= (
            #[trigger] ranks[j]).dist by {
                law_box_bounds_from_below(
                    q,
                    cluster.entries[j].vector,
                    cluster.lo,
                    cluster.hi,
                );
            }
            lemma_offers_refused(found, ranks);
        }
    }
}

proof fn lemma_probe_order_is_of_clusters(clusters: Seq<Cluster>, q: Seq<i16>, nprobe: nat)
    requires
        clusters.len() <= u32::MAX,
    ensures
        is_of_clusters(clusters, probe_order(clusters, q, nprobe)),
{
    let order = probe_order(clusters, q, nprobe);
    assert forall|i: int| 0 <= i < order.len() implies (#[trigger] order[i]).tag
        < clusters.len() by {
        lemma_order_is_of_clusters(clusters, q, nprobe, i);
    }
}

/// A query finds the five nearest of all entries of the clusters it probes.
pub proof fn law_query_finds_the_nearest_probed(clusters: Seq<Cluster>, q: Seq<i16>, nprobe: nat)
    requires
        clusters.len() <= u32::MAX,
        are_sound(clusters, q),
    ensures
        keeps_nearest(
            topn(clusters, q, nprobe),
            fillers().to_multiset().add(
                ranks_of_all(clusters, q, probe_order(clusters, q, nprobe)).to_multiset(),
            ),
        ),
        topn(clusters, q, nprobe).len() == 5,
{
    let order = probe_order(clusters, q, nprobe);
    lemma_probe_order_is_of_clusters(clusters, q, nprobe);
    law_pruning_loses_nothing(clusters, q, order);
    lemma_keeps_itself(fillers());
    let ranks = ranks_of_all(clusters, q, order);
    lemma_offer_all_keeps_nearest(fillers(), fillers().to_multiset(), ranks);
    lemma_offer_all_len(fillers(), ranks);
}

/// Taking one cluster out of an order takes its entries out.
proof fn lemma_ranks_without(clusters: Seq<Cluster>, q: Seq<i16>, order: Seq<Ranked>, i: int)
    requires
        0 <= i < order.len(),
    ensures
        ranks_of_all(clusters, q, order).to_multiset() == ranks_of_all(
            clusters,
            q,
            order.remove(i),
        ).to_multiset().add(exact_ranks(clusters[order[i].tag as int], q).to_multiset()),
    decreases order.len(),
{
    broadcast use vstd::multiset::group_multiset_axioms;

    let last = exact_ranks(clusters[order.last().tag as int], q);
    let earlier = order.drop_last();
    vstd::seq_lib::lemma_multiset_commutative(ranks_of_all(clusters, q, earlier), last);
    if i == order.len() - 1 {
        assert(order.remove(i) =~= earlier);
    } else {
        lemma_ranks_without(clusters, q, earlier, i);
        assert(order.remove(i).drop_last() =~= earlier.remove(i));
        assert(order.remove(i).last() == order.last());
        vstd::seq_lib::lemma_multiset_commutative(
            ranks_of_all(clusters, q, earlier.remove(i)),
            last,
        );
        assert(ranks_of_all(clusters, q, order).to_multiset() =~= ranks_of_all(
            clusters,
            q,
            order.remove(i),
        ).to_multiset().add(exact_ranks(clusters[order[i].tag as int], q).to_multiset()));
    }
}

/// The order of the clusters does not matter for the entries they hold.
proof fn lemma_ranks_ignore_order(
    clusters: Seq<Cluster>,
    q: Seq<i16>,
    a: Seq<Ranked>,
    b: Seq<Ranked>,
)
    requires
        a.to_multiset() == b.to_multiset(),
    ensures
        ranks_of_all(clusters, q, a).to_multiset() == ranks_of_all(clusters, q, b).to_multiset(),
    decreases a.len(),
{
    broadcast use vstd::seq_lib::group_to_multiset_ensures;
    broadcast use vstd::multiset::group_multiset_axioms;

    assert(a.to_multiset().len() == a.len() && b.to_multiset().len() == b.len());
    if a.len() > 0 {
        let x = a.last();
        assert(a.contains(x)) by {
            assert(a[a.len() - 1] == x);
        }
        assert(b.to_multiset().count(x) > 0);
        assert(b.contains(x));
        let i = choose|i: int| 0 <= i < b.len() && b[i] == x;
        let rest = a.drop_last();
        assert(a =~= rest.push(x));
        assert(a.to_multiset() =~= rest.to_multiset().insert(x));
        assert(b.remove(i).to_multiset() =~= b.to_multiset().remove(x));
        assert(rest.to_multiset() =~= b.remove(i).to_multiset());
        lemma_ranks_ignore_order(clusters, q, rest, b.remove(i));
        lemma_ranks_without(clusters, q, b, i);
        lemma_ranks_without(clusters, q, a, a.len() - 1);
        assert(a.remove(a.len() - 1) =~= rest);
    }
}

/// Going through the clusters in their order in the index reaches all of it.
proof fn lemma_ranks_of_candidates(clusters: Seq<Cluster>, q: Seq<i16>, n: int)
    requires
        0 <= n <= clusters.len() <= u32::MAX,
    ensures
        ranks_of_all(clusters, q, candidates(clusters, q).take(n)).to_multiset() == whole_index(
            clusters,
            q,
            n,
        ),
    decreases n,
{
    broadcast use vstd::seq_lib::group_to_multiset_ensures;
    broadcast use vstd::multiset::group_multiset_axioms;

    let xs = candidates(clusters, q);
    if n > 0 {
        lemma_ranks_of_candidates(clusters, q, n - 1);
        assert(xs.take(n).drop_last() =~= xs.take(n - 1));
        assert(xs.take(n).last().tag == n - 1);
        vstd::seq_lib::lemma_multiset_commutative(
            ranks_of_all(clusters, q, xs.take(n - 1)),
            exact_ranks(clusters[n - 1], q),
        );
    } else {
        assert(ranks_of_all(clusters, q, xs.take(0)) =~= Seq::<Ranked>::empty());
        assert(Seq::<Ranked>::empty().to_multiset() =~= Multiset::<Ranked>::empty());
    }
}

/// A query that probes every cluster finds the five nearest of all entries of
/// the index.
pub proof fn law_exhaustive_query_is_exact(clusters: Seq<Cluster>, q: Seq<i16>, nprobe: nat)
    requires
        clusters.len() <= u32::MAX,
        are_sound(clusters, q),
        probes(clusters, nprobe) == clusters.len(),
    ensures
        keeps_nearest(
            topn(clusters, q, nprobe),
            fillers().to_multiset().add(whole_index(clusters, q, clusters.len() as int)),
        ),
{
    broadcast use vstd::seq_lib::group_to_multiset_ensures;
    broadcast use vstd::multiset::group_multiset_axioms;

    let xs = candidates(clusters, q);
    let order = probe_order(clusters, q, nprobe);
    law_query_finds_the_nearest_probed(clusters, q, nprobe);
    law_selection_is_the_nearest_in_order(xs, probes(clusters, nprobe));
    let rest = choose|rest: Multiset<Ranked>| #[trigger] splits(order, rest, xs.to_multiset());
    assert(order.to_multiset().len() == order.len() && xs.to_multiset().len() == xs.len());
    assert(rest.len() == 0);
    assert(rest =~= Multiset::empty());
    assert(order.to_multiset() =~= xs.to_multiset());
    lemma_ranks_ignore_order(clusters, q, order, xs);
    lemma_ranks_of_candidates(clusters, q, clusters.len() as int);
    assert(xs.take(clusters.len() as int) =~= xs);
}

/// With room for one, the first nearest is picked.
proof fn lemma_pick_one(xs: Seq<Ranked>)
    requires
        xs.len() > 0,
    ensures
        is_nearest(xs, nearest(xs)),
        pick(xs, 1) == seq![xs[nearest(xs)]],
    decreases xs.len(),
{
    let ys = xs.drop_last();
    let x = xs.last();
    if ys.len() == 0 {
        assert(is_nearest(xs, 0));
        lemma_nearest_is(xs, 0);
        assert(pick(ys, 1) =~= Seq::<Ranked>::empty());
        assert(pick(xs, 1) =~= seq![xs[0]]);
    } else {
        lemma_pick_one(ys);
        let n = nearest(ys);
        let p = pick(ys, 1);
        assert(is_first_worst(p, 0));
        lemma_first_worst_is(p, 0);
        assert(forall|j: int| 0 <= j < ys.len() ==> ys[j] == xs[j]);
        if x.dist < ys[n].dist {
            assert forall|j: int| 0 <= j < ys.len() implies x.dist < (#[trigger] xs[j]).dist by {
                assert(ys[n].dist <= ys[j].dist);
            }
            assert(is_nearest(xs, xs.len() - 1));
            lemma_nearest_is(xs, xs.len() - 1);
            assert(p.update(0, x) =~= seq![x]);
        } else {
            assert forall|j: int| 0 <= j < xs.len() implies xs[n].dist <= (#[trigger] xs[j]).dist by {
                if j < ys.len() {
                    assert(ys[n].dist <= ys[j].dist);
                }
            }
            assert forall|j: int| 0 <= j < n implies xs[n].dist < (#[trigger] xs[j]).dist by {
                assert(ys[n].dist < ys[j].dist);
            }
            assert(is_nearest(xs, n));
            lemma_nearest_is(xs, n);
        }
    }
}

/// Probing one cluster of the ranked ones is probing the nearest one.
pub proof fn law_one_probe_is_the_nearest(clusters: Seq<Cluster>, q: Seq<i16>)
    requires
        0 < clusters.len() <= u32::MAX,
    ensures
        topn(clusters, q, 1) == top1(clusters, q),
        can_topn(clusters, q, 1) == can_top1(clusters, q),
        trace_of(topn(clusters, q, 1)) == trace_of(top1(clusters, q)),
{
    let xs = candidates(clusters, q);
    let p = pick(xs, 1);
    lemma_pick_one(xs);
    assert(p.drop_last() =~= Seq::<Ranked>::empty());
    assert(sort(p.drop_last()) =~= Seq::<Ranked>::empty());
    let order = probe_order(clusters, q, 1);
    assert(order =~= p);
    assert(order.drop_last() =~= Seq::<Ranked>::empty());
    assert(search_clusters(clusters, q, order.drop_last()) == fillers());
    assert(can_search(clusters, q, order.drop_last()));
}

/// Asking for more probes than there are clusters, or than 64, is asking for
/// as many as there are; without probes nobody is found.
pub proof fn law_probes_are_capped(clusters: Seq<Cluster>, q: Seq<i16>, nprobe: nat)
    ensures
        ({
            let n = probes(clusters, nprobe);
            &&& topn(clusters, q, nprobe) == topn(clusters, q, n)
            &&& can_topn(clusters, q, nprobe) == can_topn(clusters, q, n)
            &&& trace_of(topn(clusters, q, nprobe)) == trace_of(topn(clusters, q, n))
            &&& n == 0 ==> can_topn(clusters, q, nprobe) && topn(clusters, q, nprobe) == fillers()
                && trace_of(topn(clusters, q, nprobe)) == (QueryTrace {
                final_worst: u64::MAX,
                fraud: 0,
            })
        }),
{
    let n = probes(clusters, nprobe);
    assert(probes(clusters, n) == n);
    if n == 0 {
        law_selection_is_the_nearest_in_order(candidates(clusters, q), 0);
        assert(probe_order(clusters, q, nprobe) =~= Seq::<Ranked>::empty());
        assert(is_first_worst(fillers(), 0));
        lemma_first_worst_is(fillers(), 0);
        reveal_with_fuel(label_sum, 6);
        assert(label_sum(fillers()) == 0);
    }
}

/// No two items are equally far away.
pub open spec fn are_apart(xs: Seq<Ranked>) -> bool {
    forall|i: int, j: int|
        0 <= i < j < xs.len() ==> (#[trigger] xs[i]).dist != (#[trigger] xs[j]).dist
}

/// Items that are all apart are all different.
proof fn lemma_apart_is_different(xs: Seq<Ranked>)
    requires
        are_apart(xs),
    ensures
        xs.no_duplicates(),
{
    assert forall|i: int, j: int|
        0 <= i < xs.len() && 0 <= j < xs.len() && i != j implies xs[i] != xs[j] by {
        if i < j {
            assert(xs[i].dist != xs[j].dist);
        } else {
            assert(xs[j].dist != xs[i].dist);
        }
    }
}

/// What is kept of items that are all different is kept once.
proof fn lemma_kept_once(xs: Seq<Ranked>, kept: Seq<Ranked>)
    requires
        xs.no_duplicates(),
        keeps_nearest(kept, xs.to_multiset()),
    ensures
        kept.no_duplicates(),
        forall|i: int| 0 <= i < kept.len() ==> xs.contains(#[trigger] kept[i]),
{
    broadcast use vstd::seq_lib::group_to_multiset_ensures;
    broadcast use vstd::multiset::group_multiset_axioms;

    let rest = choose|rest: Multiset<Ranked>| #[trigger] splits(kept, rest, xs.to_multiset());
    xs.lemma_multiset_has_no_duplicates();
    assert forall|x: Ranked| kept.to_multiset().contains(x) implies kept.to_multiset().count(x)
        == 1 by {
        assert(xs.to_multiset().count(x) == kept.to_multiset().count(x) + rest.count(x));
        assert(xs.to_multiset().contains(x));
    }
    kept.lemma_multiset_has_no_duplicates_conv();
    assert forall|i: int| 0 <= i < kept.len() implies xs.contains(#[trigger] kept[i]) by {
        assert(kept.contains(kept[i]));
        assert(kept.to_multiset().count(kept[i]) > 0);
        assert(xs.to_multiset().count(kept[i]) > 0);
    }
}

/// `b` does not leave out an item of `xs` that is closer than its `i`th.
proof fn lemma_closer_comes_earlier(xs: Seq<Ranked>, b: Seq<Ranked>, x: Ranked, i: int) -> (k: int)
    requires
        keeps_nearest(b, xs.to_multiset()),
        is_sorted(b),
        xs.contains(x),
        0 <= i < b.len(),
        x.dist < b[i].dist,
    ensures
        0 <= k < i,
        b[k] == x,
{
    broadcast use vstd::seq_lib::group_to_multiset_ensures;
    broadcast use vstd::multiset::group_multiset_axioms;

    let rest = choose|rest: Multiset<Ranked>| #[trigger] splits(b, rest, xs.to_multiset());
    assert(xs.to_multiset().count(x) > 0);
    assert(xs.to_multiset().count(x) == b.to_multiset().count(x) + rest.count(x));
    if rest.count(x) > 0 {
        assert(b[i].dist <= x.dist);
    }
    assert(b.contains(x));
    let k = choose|k: int| 0 <= k < b.len() && b[k] == x;
    if i <= k {
        assert(b[i].dist <= b[k].dist);
    }
    k
}

/// Of items that are all apart, the nearest in order are the same whatever
/// their number.
proof fn lemma_nearest_agree(xs: Seq<Ranked>, a: Seq<Ranked>, b: Seq<Ranked>, i: int)
    requires
        are_apart(xs),
        keeps_nearest(a, xs.to_multiset()),
        keeps_nearest(b, xs.to_multiset()),
        is_sorted(a),
        is_sorted(b),
        0 <= i < a.len(),
        i < b.len(),
    ensures
        a[i] == b[i],
    decreases i,
{
    assert forall|j: int| 0 <= j < i implies a[j] == b[j] by {
        lemma_nearest_agree(xs, a, b, j);
    }
    lemma_apart_is_different(xs);
    lemma_kept_once(xs, a);
    lemma_kept_once(xs, b);
    assert(xs.contains(a[i]) && xs.contains(b[i]));
    if a[i].dist < b[i].dist {
        let k = lemma_closer_comes_earlier(xs, b, a[i], i);
        assert(a[k] == a[i]);
        assert(false);
    } else if b[i].dist < a[i].dist {
        let k = lemma_closer_comes_earlier(xs, a, b[i], i);
        assert(b[k] == b[i]);
        assert(false);
    } else {
        let k = choose|k: int| 0 <= k < xs.len() && xs[k] == a[i];
        let l = choose|l: int| 0 <= l < xs.len() && xs[l] == b[i];
        if k < l {
            assert(xs[k].dist != xs[l].dist);
        } else if l < k {
            assert(xs[l].dist != xs[k].dist);
        }
    }
}

/// Searching on never moves the worst neighbour farther away.
proof fn lemma_searching_on(clusters: Seq<Cluster>, q: Seq<i16>, order: Seq<Ranked>, n: int)
    requires
        0 <= n <= order.len(),
    ensures
        search_clusters(clusters, q, order).len() == 5,
        worst_dist(search_clusters(clusters, q, order)) <= worst_dist(
            search_clusters(clusters, q, order.take(n)),
        ),
    decreases order.len(),
{
    if n == order.len() {
        assert(order.take(n) =~= order);
    }
    if order.len() > 0 {
        let earlier = order.drop_last();
        let m = if n < order.len() {
            n
        } else {
            n - 1
        };
        lemma_searching_on(clusters, q, earlier, m);
        assert(n < order.len() ==> earlier.take(n) =~= order.take(n));
        let found = search_clusters(clusters, q, earlier);
        let ranks = scored(clusters[order.last().tag as int], q);
        lemma_offer_all_len(found, ranks);
        lemma_offers_come_closer(found, ranks);
    }
}

/// Probing more clusters never moves the fifth neighbour farther away, if no
/// two centroids are ranked equally far.
pub proof fn law_more_probes_come_closer(clusters: Seq<Cluster>, q: Seq<i16>, n1: nat, n2: nat)
    requires
        n1 <= n2,
        are_apart(candidates(clusters, q)),
    ensures
        worst_dist(topn(clusters, q, n2)) <= worst_dist(topn(clusters, q, n1)),
        trace_of(topn(clusters, q, n2)).final_worst <= trace_of(topn(clusters, q, n1)).final_worst,
{
    let xs = candidates(clusters, q);
    let a = probe_order(clusters, q, n1);
    let b = probe_order(clusters, q, n2);
    law_selection_is_the_nearest_in_order(xs, probes(clusters, n1));
    law_selection_is_the_nearest_in_order(xs, probes(clusters, n2));
    let n = a.len() as int;
    assert forall|i: int| 0 <= i < n implies a[i] == b[i] by {
        lemma_nearest_agree(xs, a, b, i);
    }
    assert(b.take(n) =~= a);
    lemma_searching_on(clusters, q, b, n);
}

/// A query probes as many clusters as asked for, but no more than 64 and no
/// more than there are: different ones, nearest first, each ranked by its
/// centroid, and none that is left out is nearer than one that is not. Which
/// of several equally near ones these are is a matter of the selection.
pub proof fn law_nearest_clusters_are_probed(clusters: Seq<Cluster>, q: Seq<i16>, nprobe: nat)
    requires
        clusters.len() <= u32::MAX,
    ensures
        ({
            let order = probe_order(clusters, q, nprobe);
            let ranks = candidates(clusters, q);
            &&& order.len() <= nprobe && order.len() <= 64 && order.len() <= clusters.len()
            &&& order.len() == nprobe || order.len() == 64 || order.len() == clusters.len()
            &&& order == sort(pick(ranks, order.len()))
            &&& forall|i: int, j: int|
                0 <= i < j < order.len() ==> (#[trigger] order[i]).dist <= (
                #[trigger] order[j]).dist && order[i].tag != order[j].tag
            &&& forall|i: int|
                0 <= i < order.len() ==> (#[trigger] order[i]).tag < clusters.len() && order[i]
                    == ranks[order[i].tag as int]
            &&& forall|c: int, i: int|
                #![trigger ranks[c], order[i]]
                0 <= c < clusters.len() && 0 <= i < order.len() && (forall|j: int|
                    0 <= j < order.len() ==> (#[trigger] order[j]).tag != c) ==> order[i].dist
                    <= ranks[c].dist
        }),
{
    broadcast use vstd::seq_lib::group_to_multiset_ensures;
    broadcast use vstd::multiset::group_multiset_axioms;

    let xs = candidates(clusters, q);
    let order = probe_order(clusters, q, nprobe);
    law_selection_is_the_nearest_in_order(xs, probes(clusters, nprobe));
    assert forall|i: int| 0 <= i < order.len() implies (#[trigger] order[i]).tag < clusters.len()
        && order[i] == xs[order[i].tag as int] by {
        lemma_order_is_of_clusters(clusters, q, nprobe, i);
    }
    assert(xs.no_duplicates()) by {
        assert forall|i: int, j: int|
            0 <= i < xs.len() && 0 <= j < xs.len() && i != j implies xs[i] != xs[j] by {
            assert(xs[i].tag == i && xs[j].tag == j);
        }
    }
    lemma_kept_once(xs, order);
    assert forall|i: int, j: int| 0 <= i < j < order.len() implies (#[trigger] order[i]).dist <= (
    #[trigger] order[j]).dist && order[i].tag != order[j].tag by {
        assert(order[i] != order[j]);
    }
    let rest = choose|rest: Multiset<Ranked>| #[trigger] splits(order, rest, xs.to_multiset());
    assert forall|c: int, i: int|
        #![trigger xs[c], order[i]]
        0 <= c < clusters.len() && 0 <= i < order.len() && (forall|j: int|
            0 <= j < order.len() ==> (#[trigger] order[j]).tag != c) implies order[i].dist
        <= xs[c].dist by {
        let x = xs[c];
        assert(xs.contains(x));
        assert(xs.to_multiset().count(x) > 0);
        assert(xs.to_multiset().count(x) == order.to_multiset().count(x) + rest.count(x));
        if order.to_multiset().count(x) > 0 {
            assert(order.contains(x));
            let j = choose|j: int| 0 <= j < order.len() && order[j] == x;
            assert(order[j].tag == c);
        }
        assert(rest.count(x) > 0);
    }
}

/// The entries of a cluster of the order are among those gone through.
proof fn lemma_ranks_hold_each_entry(
    clusters: Seq<Cluster>,
    q: Seq<i16>,
    order: Seq<Ranked>,
    i: int,
    j: int,
)
    requires
        0 <= i < order.len(),
        0 <= j < clusters[order[i].tag as int].entries.len(),
    ensures
        ranks_of_all(clusters, q, order).contains(exact_ranks(clusters[order[i].tag as int], q)[j]),
    decreases order.len(),
{
    let earlier = ranks_of_all(clusters, q, order.drop_last());
    let last = exact_ranks(clusters[order.last().tag as int], q);
    let all = earlier + last;
    if i == order.len() - 1 {
        assert(all[earlier.len() + j] == last[j]);
    } else {
        lemma_ranks_hold_each_entry(clusters, q, order.drop_last(), i, j);
        let x = exact_ranks(clusters[order[i].tag as int], q)[j];
        let k = choose|k: int| 0 <= k < earlier.len() && earlier[k] == x;
        assert(all[k] == x);
    }
}

/// What is gone through are entries of clusters of the order.
proof fn lemma_ranks_are_of_entries(clusters: Seq<Cluster>, q: Seq<i16>, order: Seq<Ranked>, n: int)
    requires
        0 <= n < ranks_of_all(clusters, q, order).len(),
    ensures
        exists|i: int, j: int|
            0 <= i < order.len() && 0 <= j < clusters[order[i].tag as int].entries.len()
                && ranks_of_all(clusters, q, order)[n] == #[trigger] exact_ranks(
                clusters[order[i].tag as int],
                q,
            )[j],
    decreases order.len(),
{
    let earlier = ranks_of_all(clusters, q, order.drop_last());
    let last = exact_ranks(clusters[order.last().tag as int], q);
    if n < earlier.len() {
        lemma_ranks_are_of_entries(clusters, q, order.drop_last(), n);
        let (i, j) = choose|i: int, j: int|
            0 <= i < order.drop_last().len() && 0 <= j
                < clusters[order.drop_last()[i].tag as int].entries.len() && earlier[n]
                == #[trigger] exact_ranks(clusters[order.drop_last()[i].tag as int], q)[j];
        assert(ranks_of_all(clusters, q, order)[n] == exact_ranks(
            clusters[order[i].tag as int],
            q,
        )[j]);
    } else {
        let i = order.len() - 1;
        assert(order[i] == order.last());
        assert(ranks_of_all(clusters, q, order)[n] == exact_ranks(
            clusters[order[i].tag as int],
            q,
        )[n - earlier.len()]);
    }
}

/// Every entry of a probed cluster that is closer than the worst neighbour
/// found is found, with its distance and its label; and what is found closer
/// than the fillers are entries of probed clusters.
pub proof fn law_near_entries_are_found(
    clusters: Seq<Cluster>,
    q: Seq<i16>,
    nprobe: nat,
    i: int,
    j: int,
    n: int,
)
    requires
        clusters.len() <= u32::MAX,
        are_sound(clusters, q),
        0 <= i < probe_order(clusters, q, nprobe).len(),
        0 <= j < clusters[probe_order(clusters, q, nprobe)[i].tag as int].entries.len(),
        0 <= n < 5,
    ensures
        ({
            let order = probe_order(clusters, q, nprobe);
            let found = topn(clusters, q, nprobe);
            let entry = clusters[order[i].tag as int].entries[j];
            &&& dist(q, entry.vector) < worst_dist(found) ==> found.contains(
                Ranked { dist: dist(q, entry.vector), tag: entry.label as u32 },
            )
            &&& found.len() == 5
            &&& found[n] == (Ranked { dist: u64::MAX, tag: 0 }) || exists|a: int, b: int|
                0 <= a < order.len() && 0 <= b < clusters[order[a].tag as int].entries.len()
                    && found[n].dist == dist(
                    q,
                    (#[trigger] clusters[order[a].tag as int].entries[b]).vector,
                ) && found[n].tag == clusters[order[a].tag as int].entries[b].label
        }),
{
    broadcast use vstd::seq_lib::group_to_multiset_ensures;
    broadcast use vstd::multiset::group_multiset_axioms;

    let order = probe_order(clusters, q, nprobe);
    let found = topn(clusters, q, nprobe);
    let ranks = ranks_of_all(clusters, q, order);
    let all = fillers().to_multiset().add(ranks.to_multiset());
    let x = exact_ranks(clusters[order[i].tag as int], q)[j];
    law_query_finds_the_nearest_probed(clusters, q, nprobe);
    lemma_first_worst(found);
    let rest = choose|rest: Multiset<Ranked>| #[trigger] splits(found, rest, all);
    lemma_ranks_hold_each_entry(clusters, q, order, i, j);
    assert(ranks.to_multiset().count(x) > 0);
    assert(all.count(x) == found.to_multiset().count(x) + rest.count(x));
    if x.dist < worst_dist(found) {
        if rest.count(x) > 0 {
            assert(found[first_worst(found)].dist <= x.dist);
        }
        assert(found.contains(x));
    }
    let y = found[n];
    assert(found.contains(y));
    assert(found.to_multiset().count(y) > 0);
    assert(all.count(y) > 0);
    if fillers().to_multiset().count(y) > 0 {
        assert(fillers().contains(y));
    } else {
        assert(ranks.contains(y));
        let m = choose|m: int| 0 <= m < ranks.len() && ranks[m] == y;
        lemma_ranks_are_of_entries(clusters, q, order, m);
        let (a, b) = choose|a: int, b: int|
            0 <= a < order.len() && 0 <= b < clusters[order[a].tag as int].entries.len() && ranks[m]
                == #[trigger] exact_ranks(clusters[order[a].tag as int], q)[b];
        assert(clusters[order[a].tag as int].entries[b].label == y.tag);
    }
}

/// The query of the nearest cluster finds the five nearest of its entries.
pub proof fn law_nearest_cluster_gives_its_nearest(clusters: Seq<Cluster>, q: Seq<i16>, i: int)
    requires
        is_nearest(candidates(clusters, q), i),
        is_measurable(clusters[i], q),
    ensures
        keeps_nearest(
            top1(clusters, q),
            fillers().to_multiset().add(exact_ranks(clusters[i], q).to_multiset()),
        ),
        top1(clusters, q).len() == 5,
{
    lemma_nearest_is(candidates(clusters, q), i);
    lemma_scored_is_exact(clusters[i], q);
    lemma_keeps_itself(fillers());
    let ranks = exact_ranks(clusters[i], q);
    lemma_offer_all_keeps_nearest(fillers(), fillers().to_multiset(), ranks);
    lemma_offer_all_len(fillers(), ranks);
}

} // verus!
