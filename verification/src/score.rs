//! From a transaction to the number of its fraudulent neighbours.
use crate::exactness::{
    are_sound, holds_features, is_boxed, law_exhaustive_query_is_exact,
    law_query_finds_the_nearest_probed, law_transactions_are_measured_exactly, whole_index,
};
use crate::features::{law_vectors_are_feature_vectors, Quantised};
use crate::heap::{fillers, label_sum};
use crate::index::IvfIndex;
use crate::model::{topn, Cluster};
use crate::ranked::{keeps_nearest, Ranked};
use crate::search::{
    are_in_file, labels_up_to, law_search_has_an_outcome, search, try_search, Config,
};
use crate::tx::{Transaction, TransactionView};
use vstd::prelude::*;

verus! {

/// The number of fraudulent neighbours of a transaction, if its vector can be
/// computed and the search for it has an outcome.
pub open spec fn score_of(
    clusters: Seq<Cluster>,
    cfg: Config,
    tx: TransactionView,
    q: Quantised,
) -> Option<u8> {
    if tx.is_computable() {
        search(clusters, cfg, tx.vector(q))
    } else {
        None
    }
}

/// Scores a transaction, whose decimals have been quantised.
pub fn score(idx: &IvfIndex, cfg: &Config, tx: &Transaction, q: &Quantised) -> (count: Option<u8>)
    ensures
        count == score_of(idx@, *cfg, tx@, *q),
{
    if !tx.check_computable() {
        return None;
    }
    let v = tx.to_vector(q);
    try_search(idx, cfg, &v)
}

/// A transaction is measured exactly from known transactions.
pub proof fn law_known_transactions_are_measured_exactly(
    clusters: Seq<Cluster>,
    tx: TransactionView,
    q: Quantised,
)
    requires
        forall|c: int|
            0 <= c < clusters.len() ==> is_boxed(#[trigger] clusters[c]) && holds_features(
                clusters[c],
            ),
        tx.is_computable(),
        q.is_in_range(),
    ensures
        are_sound(clusters, tx.vector(q)),
{
    law_vectors_are_feature_vectors(tx, q);
    law_transactions_are_measured_exactly(clusters, tx.vector(q));
}

/// On an index of no more than 64 clusters, all of which are probed, whose
/// entries lie in their boxes and are measured exactly, the score of a
/// transaction is the number of frauds among the five known transactions that
/// are nearest to it.
pub proof fn law_score_counts_the_nearest_frauds(
    clusters: Seq<Cluster>,
    cfg: Config,
    tx: TransactionView,
    q: Quantised,
)
    requires
        0 < clusters.len() <= 64,
        clusters.len() <= cfg.nprobe,
        !cfg.has_fast_query(),
        are_sound(clusters, tx.vector(q)),
        are_in_file(clusters),
        labels_up_to(clusters, 1),
        tx.is_computable(),
    ensures
        exists|found: Seq<Ranked>|
            {
                &&& found.len() == 5
                &&& #[trigger] keeps_nearest(
                    found,
                    fillers().to_multiset().add(
                        whole_index(clusters, tx.vector(q), clusters.len() as int),
                    ),
                )
                &&& score_of(clusters, cfg, tx, q) == Some(label_sum(found) as u8)
                &&& label_sum(found) <= 5
            },
{
    let v = tx.vector(q);
    let found = topn(clusters, v, cfg.nprobe as nat);
    law_query_finds_the_nearest_probed(clusters, v, cfg.nprobe as nat);
    law_exhaustive_query_is_exact(clusters, v, cfg.nprobe as nat);
    law_search_has_an_outcome(clusters, cfg, v);
    assert(keeps_nearest(
        found,
        fillers().to_multiset().add(whole_index(clusters, v, clusters.len() as int)),
    ));
}

/// A transaction is scored by the search for its vector; one without a vector
/// has no score.
pub proof fn law_scores_are_searched_for(
    clusters: Seq<Cluster>,
    cfg: Config,
    tx: TransactionView,
    q: Quantised,
)
    ensures
        tx.is_computable() ==> score_of(clusters, cfg, tx, q) == search(
            clusters,
            cfg,
            tx.vector(q),
        ),
        !tx.is_computable() ==> score_of(clusters, cfg, tx, q) is None,
{
}

} // verus!
