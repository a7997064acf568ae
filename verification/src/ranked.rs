//! Candidates ranked by distance, and bounded collections of the nearest ones.
//!
//! Both bounded collections of this crate, the five nearest neighbours of a
//! query and the clusters picked for probing, are sequences of [`Ranked`]
//! values in which a closer newcomer takes the place of the first worst one.
use vstd::multiset::Multiset;
use vstd::prelude::*;

verus! {

/// Something found at a distance: a neighbour with its label, or a cluster
/// with its number.
#[derive(Clone, Copy)]
pub struct Ranked {
    pub dist: u64,
    pub tag: u32,
}

/// `s[i]` is as far away as anything in `s`, and nothing before it is.
pub open spec fn is_first_worst(s: Seq<Ranked>, i: int) -> bool {
    &&& 0 <= i < s.len()
    &&& forall|j: int| 0 <= j < s.len() ==> (#[trigger] s[j]).dist <= s[i].dist
    &&& forall|j: int| 0 <= j < i ==> (#[trigger] s[j]).dist < s[i].dist
}

/// The position of the first worst item of a non-empty sequence.
pub open spec fn first_worst(s: Seq<Ranked>) -> int {
    choose|i: int| is_first_worst(s, i)
}

/// The largest distance in a non-empty sequence.
pub open spec fn worst_dist(s: Seq<Ranked>) -> u64 {
    s[first_worst(s)].dist
}

/// A full collection takes `x` in only if `x` is closer than the first worst
/// item, whose place it takes.
pub open spec fn offer(s: Seq<Ranked>, x: Ranked) -> Seq<Ranked> {
    if s.len() > 0 && x.dist < worst_dist(s) {
        s.update(first_worst(s), x)
    } else {
        s
    }
}

/// Offers all of `xs` to `s`, in order.
pub open spec fn offer_all(s: Seq<Ranked>, xs: Seq<Ranked>) -> Seq<Ranked>
    decreases xs.len(),
{
    if xs.len() == 0 {
        s
    } else {
        offer(offer_all(s, xs.drop_last()), xs.last())
    }
}

/// `kept` holds nearest items of `all`: the two differ by items that are no
/// closer than anything kept.
pub open spec fn keeps_nearest(kept: Seq<Ranked>, all: Multiset<Ranked>) -> bool {
    exists|rest: Multiset<Ranked>| #[trigger] splits(kept, rest, all)
}

/// `all` is what is kept together with the `rest`, and nothing of the rest is
/// closer than anything kept.
pub open spec fn splits(kept: Seq<Ranked>, rest: Multiset<Ranked>, all: Multiset<Ranked>) -> bool {
    &&& kept.to_multiset().add(rest) == all
    &&& forall|r: Ranked, i: int|
        #![trigger rest.count(r), kept[i]]
        rest.count(r) > 0 && 0 <= i < kept.len() ==> kept[i].dist <= r.dist
}

/// A non-empty sequence has a first worst item.
pub proof fn lemma_first_worst(s: Seq<Ranked>)
    requires
        s.len() > 0,
    ensures
        is_first_worst(s, first_worst(s)),
    decreases s.len(),
{
    if s.len() == 1 {
        assert(is_first_worst(s, 0));
    } else {
        let t = s.drop_last();
        lemma_first_worst(t);
        let w = first_worst(t);
        assert(forall|j: int| 0 <= j < t.len() ==> t[j] == s[j]);
        if s.last().dist > t[w].dist {
            assert forall|j: int| 0 <= j < s.len() - 1 implies (#[trigger] s[j]).dist
                < s.last().dist by {
                assert(t[j].dist <= t[w].dist);
            }
            assert(is_first_worst(s, s.len() - 1));
        } else {
            assert forall|j: int| 0 <= j < s.len() implies (#[trigger] s[j]).dist <= s[w].dist by {
                if j < t.len() {
                    assert(t[j].dist <= t[w].dist);
                }
            }
            assert forall|j: int| 0 <= j < w implies (#[trigger] s[j]).dist < s[w].dist by {
                assert(t[j].dist < t[w].dist);
            }
            assert(is_first_worst(s, w));
        }
    }
}

/// There is only one first worst item.
pub proof fn lemma_first_worst_is(s: Seq<Ranked>, i: int)
    requires
        is_first_worst(s, i),
    ensures
        first_worst(s) == i,
        worst_dist(s) == s[i].dist,
{
    let w = first_worst(s);
    assert(is_first_worst(s, w));
    if w < i {
        assert(s[w].dist < s[i].dist);
    } else if i < w {
        assert(s[i].dist < s[w].dist);
    }
}

/// Offering keeps the number of items.
pub proof fn lemma_offer_all_len(s: Seq<Ranked>, xs: Seq<Ranked>)
    ensures
        offer_all(s, xs).len() == s.len(),
    decreases xs.len(),
{
    if xs.len() > 0 {
        let t = offer_all(s, xs.drop_last());
        lemma_offer_all_len(s, xs.drop_last());
        if t.len() > 0 {
            lemma_first_worst(t);
        }
    }
}

/// Offers never move the worst item farther away.
pub proof fn lemma_offers_come_closer(s: Seq<Ranked>, xs: Seq<Ranked>)
    requires
        s.len() > 0,
    ensures
        worst_dist(offer_all(s, xs)) <= worst_dist(s),
    decreases xs.len(),
{
    if xs.len() > 0 {
        lemma_offers_come_closer(s, xs.drop_last());
        lemma_offer_all_len(s, xs.drop_last());
        lemma_offer_all_len(s, xs);
        lemma_first_worst(offer_all(s, xs.drop_last()));
        lemma_first_worst(offer_all(s, xs));
    }
}

/// Offering two batches one after the other is offering both as one batch.
pub proof fn lemma_offer_all_concat(s: Seq<Ranked>, xs: Seq<Ranked>, ys: Seq<Ranked>)
    ensures
        offer_all(s, xs + ys) == offer_all(offer_all(s, xs), ys),
    decreases ys.len(),
{
    if ys.len() == 0 {
        assert(xs + ys =~= xs);
    } else {
        assert((xs + ys).drop_last() =~= xs + ys.drop_last());
        lemma_offer_all_concat(s, xs, ys.drop_last());
    }
}

/// One offer keeps a nearest collection nearest.
pub proof fn lemma_offer_keeps_nearest(s: Seq<Ranked>, all: Multiset<Ranked>, x: Ranked)
    requires
        keeps_nearest(s, all),
        s.len() > 0,
    ensures
        keeps_nearest(offer(s, x), all.insert(x)),
{
    broadcast use vstd::seq_lib::group_to_multiset_ensures;
    broadcast use vstd::multiset::group_multiset_axioms;

    let rest = choose|rest: Multiset<Ranked>| #[trigger] splits(s, rest, all);
    lemma_first_worst(s);
    let w = first_worst(s);
    let t = offer(s, x);
    if x.dist < s[w].dist {
        let gone = s[w];
        let rest2 = rest.insert(gone);
        assert(t == s.update(w, x));
        assert(t.to_multiset() =~= s.to_multiset().insert(x).remove(gone));
        assert(s.to_multiset().count(gone) > 0) by {
            assert(s.contains(gone));
        }
        assert(t.to_multiset().add(rest2) =~= all.insert(x));
        assert forall|r: Ranked, i: int|
            #![trigger rest2.count(r), t[i]]
            rest2.count(r) > 0 && 0 <= i < t.len() implies t[i].dist <= r.dist by {
            if r == gone {
                if i != w {
                    assert(s[i].dist <= s[w].dist);
                }
            } else {
                assert(rest.count(r) > 0);
                assert(s[i].dist <= r.dist);
                assert(s[w].dist <= r.dist);
            }
        }
        assert(splits(t, rest2, all.insert(x)));
    } else {
        let rest2 = rest.insert(x);
        assert(t.to_multiset().add(rest2) =~= all.insert(x));
        assert forall|r: Ranked, i: int|
            #![trigger rest2.count(r), t[i]]
            rest2.count(r) > 0 && 0 <= i < t.len() implies t[i].dist <= r.dist by {
            if r == x {
                assert(s[i].dist <= s[w].dist);
            } else {
                assert(rest.count(r) > 0);
                assert(s[i].dist <= r.dist);
            }
        }
        assert(splits(t, rest2, all.insert(x)));
    }
}

/// Offering a whole batch keeps a nearest collection nearest.
pub proof fn lemma_offer_all_keeps_nearest(
    s: Seq<Ranked>,
    all: Multiset<Ranked>,
    xs: Seq<Ranked>,
)
    requires
        keeps_nearest(s, all),
        s.len() > 0,
    ensures
        keeps_nearest(offer_all(s, xs), all.add(xs.to_multiset())),
    decreases xs.len(),
{
    broadcast use vstd::seq_lib::group_to_multiset_ensures;
    broadcast use vstd::multiset::group_multiset_axioms;

    if xs.len() == 0 {
        assert(xs.to_multiset() =~= Multiset::empty()) by {
            assert(xs =~= Seq::<Ranked>::empty());
        }
        assert(all.add(xs.to_multiset()) =~= all);
    } else {
        let ys = xs.drop_last();
        lemma_offer_all_keeps_nearest(s, all, ys);
        lemma_offer_all_len(s, ys);
        lemma_offer_keeps_nearest(offer_all(s, ys), all.add(ys.to_multiset()), xs.last());
        assert(xs =~= ys.push(xs.last()));
        assert(all.add(ys.to_multiset()).insert(xs.last()) =~= all.add(xs.to_multiset()));
    }
}

/// A sequence keeps the nearest items of itself.
pub proof fn lemma_keeps_itself(s: Seq<Ranked>)
    ensures
        keeps_nearest(s, s.to_multiset()),
{
    broadcast use vstd::multiset::group_multiset_axioms;

    let rest = Multiset::<Ranked>::empty();
    assert(s.to_multiset().add(rest) =~= s.to_multiset());
    assert(splits(s, rest, s.to_multiset()));
}

/// The items at distance `t` or closer.
pub open spec fn within(m: Multiset<Ranked>, t: u64) -> Multiset<Ranked> {
    m.filter(|x: Ranked| x.dist <= t)
}

/// Two nearest collections of the same size, taken from the same items, reach
/// equally far.
pub proof fn lemma_worst_dist_is_determined(a: Seq<Ranked>, b: Seq<Ranked>, all: Multiset<Ranked>)
    requires
        keeps_nearest(a, all),
        keeps_nearest(b, all),
        a.len() == b.len(),
        a.len() > 0,
    ensures
        worst_dist(a) == worst_dist(b),
{
    lemma_worst_dist_at_most(a, b, all);
    lemma_worst_dist_at_most(b, a, all);
}

proof fn lemma_worst_dist_at_most(a: Seq<Ranked>, b: Seq<Ranked>, all: Multiset<Ranked>)
    requires
        keeps_nearest(a, all),
        keeps_nearest(b, all),
        a.len() == b.len(),
        a.len() > 0,
    ensures
        worst_dist(b) <= worst_dist(a),
{
    broadcast use vstd::seq_lib::group_to_multiset_ensures;
    broadcast use vstd::multiset::group_multiset_axioms;

    lemma_first_worst(a);
    lemma_first_worst(b);
    let t = worst_dist(a);
    if worst_dist(b) > t {
        let ra = choose|rest: Multiset<Ranked>| #[trigger] splits(a, rest, all);
        let rb = choose|rest: Multiset<Ranked>| #[trigger] splits(b, rest, all);
        let far = b[first_worst(b)];
        let am = a.to_multiset();
        let bm = b.to_multiset();
        // All of `a` lies within `t` ...
        assert(within(am, t) =~= am) by {
            assert forall|x: Ranked| am.count(x) > 0 implies x.dist <= t by {
                assert(a.contains(x));
            }
        }
        assert(within(all, t) =~= within(am, t).add(within(ra, t)));
        // ... of `b` and its rest, no more than `b` without its worst item.
        assert(within(rb, t) =~= Multiset::empty()) by {
            assert forall|x: Ranked| rb.count(x) > 0 implies x.dist > t by {
                assert(b[first_worst(b)].dist <= x.dist);
            }
        }
        assert(within(all, t) =~= within(bm, t).add(within(rb, t)));
        assert(bm.count(far) > 0) by {
            assert(b.contains(far));
        }
        assert(within(bm, t).insert(far).subset_of(bm)) by {
            assert forall|x: Ranked| within(bm, t).insert(far).count(x) <= bm.count(x) by {}
        }
        assert(within(bm, t).len() < bm.len()) by {
            let more = bm.sub(within(bm, t).insert(far));
            assert(more.add(within(bm, t).insert(far)) =~= bm);
        }
        assert(am.len() == a.len() && bm.len() == b.len());
        assert(within(all, t).len() == within(am, t).len() + within(ra, t).len());
        assert(within(all, t).len() == within(bm, t).len());
        assert(false);
    }
}

/// The worst distance is that of an item, and no item is farther away.
pub proof fn law_worst_is_the_farthest(s: Seq<Ranked>)
    requires
        s.len() > 0,
    ensures
        exists|i: int| 0 <= i < s.len() && (#[trigger] s[i]).dist == worst_dist(s),
        forall|i: int| 0 <= i < s.len() ==> (#[trigger] s[i]).dist <= worst_dist(s),
{
    lemma_first_worst(s);
    assert(s[first_worst(s)].dist == worst_dist(s));
}

/// A newcomer takes the place of the farthest item, the first of several, if
/// and only if it is closer than that one; nothing else changes.
pub proof fn law_newcomer_replaces_the_farthest(s: Seq<Ranked>, x: Ranked, w: int)
    requires
        0 <= w < s.len(),
        forall|j: int| 0 <= j < s.len() ==> (#[trigger] s[j]).dist <= s[w].dist,
        forall|j: int| 0 <= j < w ==> (#[trigger] s[j]).dist < s[w].dist,
    ensures
        x.dist < s[w].dist ==> offer(s, x) == s.update(w, x),
        x.dist >= s[w].dist ==> offer(s, x) == s,
{
    assert(is_first_worst(s, w));
    lemma_first_worst_is(s, w);
}

/// A batch is offered item by item, from the first to the last.
pub proof fn law_batches_are_offered_in_order(s: Seq<Ranked>, xs: Seq<Ranked>, x: Ranked)
    ensures
        offer_all(s, Seq::empty()) == s,
        offer_all(s, xs.push(x)) == offer(offer_all(s, xs), x),
{
    assert(xs.push(x).drop_last() =~= xs);
}

} // verus!
