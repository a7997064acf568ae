//! The five nearest neighbours seen so far.
use crate::ranked::{
    first_worst, is_first_worst, keeps_nearest, lemma_first_worst, lemma_first_worst_is,
    lemma_keeps_itself, lemma_offer_all_keeps_nearest, lemma_offer_all_len,
    lemma_worst_dist_is_determined, offer, offer_all, splits, within, worst_dist, Ranked,
};
use vstd::multiset::Multiset;
use vstd::prelude::*;

verus! {

/// How many neighbours vote on a query.
pub const NEIGHBOURS: usize = 5;

/// Fixed-size max-heap tracking 5 nearest neighbours.
///
/// The places that no neighbour has taken yet are held by fillers at the
/// largest distance there is, with label 0.
pub struct KnnHeap {
    dist: [u64; 5],
    label: [u8; 5],
    gate_idx: usize,
}

/// A heap that has seen nothing.
pub open spec fn fillers() -> Seq<Ranked> {
    Seq::new(5, |i: int| Ranked { dist: u64::MAX, tag: 0 })
}

/// The sum of the labels.
pub open spec fn label_sum(s: Seq<Ranked>) -> nat
    decreases s.len(),
{
    if s.len() == 0 {
        0
    } else {
        label_sum(s.drop_last()) + s.last().tag as nat
    }
}

impl View for KnnHeap {
    type V = Seq<Ranked>;

    closed spec fn view(&self) -> Seq<Ranked> {
        Seq::new(5, |i: int| Ranked { dist: self.dist[i], tag: self.label[i] as u32 })
    }
}

impl KnnHeap {
    /// `gate_idx` points at the first worst neighbour.
    #[verifier::type_invariant]
    spec fn gate_is_worst(self) -> bool {
        is_first_worst(self@, self.gate_idx as int)
    }

    pub fn new() -> (heap: Self)
        ensures
            heap@ == fillers(),
            heap@.len() == 5,
            forall|i: int|
                0 <= i < 5 ==> #[trigger] heap@[i] == (Ranked { dist: 0xffff_ffff_ffff_ffff, tag: 0 }),
    {
        let dist: [u64; 5] = [u64::MAX; 5];
        let label: [u8; 5] = [0; 5];
        KnnHeap { dist, label, gate_idx: 0 }
    }

    /// The largest distance held: what a newcomer has to undercut.
    pub fn gate(&self) -> (d: u64)
        ensures
            d == worst_dist(self@),
            forall|i: int| 0 <= i < 5 ==> (#[trigger] self@[i]).dist <= d,
            self@.len() == 5,
            exists|i: int| 0 <= i < 5 && (#[trigger] self@[i]).dist == d,
    {
        proof {
            use_type_invariant(self);
            lemma_first_worst_is(self@, self.gate_idx as int);
            assert(self@[self.gate_idx as int].dist == worst_dist(self@));
        }
        self.dist[self.gate_idx]
    }

    /// Takes a neighbour in if it is closer than the worst one held.
    pub fn insert(&mut self, d: u64, l: u8)
        ensures
            final(self)@ == offer(old(self)@, Ranked { dist: d, tag: l as u32 }),
    {
        proof {
            use_type_invariant(&*self);
            lemma_first_worst_is(self@, self.gate_idx as int);
        }
        if d >= self.gate() {
            return ;
        }
        let ghost before = self@;
        let mut dist: [u64; 5] = self.dist;
        let mut label: [u8; 5] = self.label;
        dist[self.gate_idx] = d;
        label[self.gate_idx] = l;
        let mut gate_idx: usize = 0;
        for i in 1..5
            invariant
                gate_idx < i,
                forall|j: int| 0 <= j < i ==> #[trigger] dist[j] <= dist[gate_idx as int],
                forall|j: int| 0 <= j < gate_idx ==> #[trigger] dist[j] < dist[gate_idx as int],
        {
            if dist[i] > dist[gate_idx] {
                gate_idx = i;
            }
        }
        *self = KnnHeap { dist, label, gate_idx };
        assert(self@ =~= before.update(first_worst(before), Ranked { dist: d, tag: l as u32 }));
    }

    /// How many of the neighbours are fraudulent, each counted by its label.
    pub fn fraud_count(&self) -> (n: u8)
        requires
            label_sum(self@) <= u8::MAX,
        ensures
            n == label_sum(self@),
            n == self@[0].tag + self@[1].tag + self@[2].tag + self@[3].tag + self@[4].tag,
    {
        let n = self.label_total();
        n as u8
    }

    /// The sum of the labels, in a type that always holds it.
    pub fn label_total(&self) -> (n: u16)
        ensures
            n == label_sum(self@),
            n == self@[0].tag + self@[1].tag + self@[2].tag + self@[3].tag + self@[4].tag,
    {
        let ghost s = self@;
        let mut n: u16 = 0;
        for i in 0..5
            invariant
                n == label_sum(s.take(i as int)),
                n <= 255 * i,
                s == self@,
        {
            assert(s.take(i + 1).drop_last() =~= s.take(i as int));
            n = n + self.label[i] as u16;
        }
        assert(s.take(5) =~= s);
        proof {
            law_labels_are_added_up(s);
        }
        n
    }
}

/// The heap holds the five nearest of everything it has been given, whatever
/// the order: what it does not hold is no closer than what it holds. (While
/// fewer than five have come, fillers make up the number.)
pub proof fn law_heap_keeps_the_nearest(given: Seq<Ranked>)
    ensures
        keeps_nearest(
            offer_all(fillers(), given),
            fillers().to_multiset().add(given.to_multiset()),
        ),
        offer_all(fillers(), given).len() == 5,
{
    lemma_keeps_itself(fillers());
    lemma_offer_all_keeps_nearest(fillers(), fillers().to_multiset(), given);
    lemma_offer_all_len(fillers(), given);
}

/// How far the heap reaches does not depend on the order in which the neighbours came.
pub proof fn law_gate_ignores_order(given: Seq<Ranked>, shuffled: Seq<Ranked>)
    requires
        given.to_multiset() == shuffled.to_multiset(),
    ensures
        worst_dist(offer_all(fillers(), given)) == worst_dist(offer_all(fillers(), shuffled)),
{
    law_heap_keeps_the_nearest(given);
    law_heap_keeps_the_nearest(shuffled);
    lemma_worst_dist_is_determined(
        offer_all(fillers(), given),
        offer_all(fillers(), shuffled),
        fillers().to_multiset().add(given.to_multiset()),
    );
}

/// What is held at the largest distance are fillers.
proof fn lemma_farthest_are_fillers(given: Seq<Ranked>)
    ensures
        ({
            let held = offer_all(fillers(), given);
            forall|i: int| 0 <= i < held.len() && held[i].dist == u64::MAX ==> (#[trigger] held[i]).tag
                == 0
        }),
    decreases given.len(),
{
    if given.len() > 0 {
        let earlier = given.drop_last();
        lemma_farthest_are_fillers(earlier);
        lemma_offer_all_len(fillers(), earlier);
        lemma_first_worst(offer_all(fillers(), earlier));
    }
}

/// A multiset of copies of `x`.
proof fn lemma_copies(m: Multiset<Ranked>, x: Ranked)
    requires
        forall|y: Ranked| m.count(y) > 0 ==> y == x,
    ensures
        m.count(x) == m.len(),
    decreases m.len(),
{
    broadcast use vstd::multiset::group_multiset_axioms;

    if m.len() > 0 {
        assert(m.count(m.choose()) > 0);
        lemma_copies(m.remove(x), x);
    } else {
        assert(m =~= Multiset::empty());
    }
}

/// The heap holds all that is given within its reach and no more, if that is
/// no more than five.
proof fn lemma_held_is_within_reach(given: Seq<Ranked>)
    requires
        worst_dist(offer_all(fillers(), given)) < u64::MAX,
        within(given.to_multiset(), worst_dist(offer_all(fillers(), given))).len() <= 5,
    ensures
        offer_all(fillers(), given).to_multiset() == within(
            given.to_multiset(),
            worst_dist(offer_all(fillers(), given)),
        ),
{
    broadcast use vstd::seq_lib::group_to_multiset_ensures;
    broadcast use vstd::multiset::group_multiset_axioms;

    let held = offer_all(fillers(), given);
    let t = worst_dist(held);
    let all = fillers().to_multiset().add(given.to_multiset());
    let reach = within(given.to_multiset(), t);
    law_heap_keeps_the_nearest(given);
    lemma_first_worst(held);
    let rest = choose|rest: Multiset<Ranked>| #[trigger] splits(held, rest, all);
    let hm = held.to_multiset();
    assert forall|x: Ranked| hm.count(x) <= reach.count(x) by {
        if hm.count(x) > 0 {
            assert(held.contains(x));
            let i = choose|i: int| 0 <= i < held.len() && held[i] == x;
            assert(held[i].dist <= t);
            assert(all.count(x) == hm.count(x) + rest.count(x));
            assert(fillers().to_multiset().count(x) == 0) by {
                assert(!fillers().contains(x));
            }
        }
    }
    assert(hm.len() == 5);
    assert(hm.subset_of(reach));
    let more = reach.sub(hm);
    assert(more.add(hm) =~= reach);
    assert(more.len() == 0);
    assert(more =~= Multiset::empty());
    assert(hm =~= reach);
}

/// A heap with a filler left holds everything closer than the fillers.
proof fn lemma_held_with_fillers(given: Seq<Ranked>, x: Ranked)
    requires
        worst_dist(offer_all(fillers(), given)) == u64::MAX,
    ensures
        x.dist < u64::MAX ==> offer_all(fillers(), given).to_multiset().count(x)
            == given.to_multiset().count(x),
        x.dist == u64::MAX && x.tag != 0 ==> offer_all(fillers(), given).to_multiset().count(x)
            == 0,
{
    broadcast use vstd::seq_lib::group_to_multiset_ensures;
    broadcast use vstd::multiset::group_multiset_axioms;

    let held = offer_all(fillers(), given);
    let all = fillers().to_multiset().add(given.to_multiset());
    law_heap_keeps_the_nearest(given);
    lemma_first_worst(held);
    lemma_farthest_are_fillers(given);
    let w = first_worst(held);
    let rest = choose|rest: Multiset<Ranked>| #[trigger] splits(held, rest, all);
    let hm = held.to_multiset();
    assert(all.count(x) == hm.count(x) + rest.count(x));
    if x.dist < u64::MAX {
        if rest.count(x) > 0 {
            assert(held[w].dist <= x.dist);
        }
        assert(!fillers().contains(x));
        assert(fillers().to_multiset().count(x) == 0);
    } else if x.tag != 0 && hm.count(x) > 0 {
        assert(held.contains(x));
        let i = choose|i: int| 0 <= i < held.len() && held[i] == x;
        assert(held[i].tag == 0);
    }
}

/// Two heaps with a filler left that were given the same hold the same.
proof fn lemma_same_with_fillers(given: Seq<Ranked>, shuffled: Seq<Ranked>)
    requires
        given.to_multiset() == shuffled.to_multiset(),
        worst_dist(offer_all(fillers(), given)) == u64::MAX,
        worst_dist(offer_all(fillers(), shuffled)) == u64::MAX,
    ensures
        offer_all(fillers(), given).to_multiset() == offer_all(fillers(), shuffled).to_multiset(),
{
    broadcast use vstd::seq_lib::group_to_multiset_ensures;
    broadcast use vstd::multiset::group_multiset_axioms;

    let a = offer_all(fillers(), given).to_multiset();
    let b = offer_all(fillers(), shuffled).to_multiset();
    let filler = Ranked { dist: u64::MAX, tag: 0 };
    lemma_offer_all_len(fillers(), given);
    lemma_offer_all_len(fillers(), shuffled);
    assert(a.len() == 5 && b.len() == 5);
    let near = within(a, (u64::MAX - 1) as u64);
    assert forall|x: Ranked| x != filler implies a.count(x) == b.count(x) && a.count(x)
        == #[trigger] near.count(x) by {
        lemma_held_with_fillers(given, x);
        lemma_held_with_fillers(shuffled, x);
    }
    assert(near.count(filler) == 0);
    assert(near.subset_of(a) && near.subset_of(b)) by {
        assert forall|x: Ranked| near.count(x) <= a.count(x) && near.count(x) <= b.count(x) by {}
    }
    let fa = a.sub(near);
    let fb = b.sub(near);
    assert(fa.add(near) =~= a && fb.add(near) =~= b);
    assert forall|x: Ranked| fa.count(x) > 0 implies x == filler by {
        assert(x != filler ==> a.count(x) == near.count(x));
    }
    assert forall|x: Ranked| fb.count(x) > 0 implies x == filler by {
        assert(x != filler ==> b.count(x) == near.count(x));
    }
    lemma_copies(fa, filler);
    lemma_copies(fb, filler);
    assert forall|x: Ranked| a.count(x) == b.count(x) by {
        assert(x != filler ==> a.count(x) == near.count(x));
    }
    assert(a =~= b);
}

/// The sum of the labels does not depend on their order.
proof fn lemma_label_sum_ignores_order(a: Seq<Ranked>, b: Seq<Ranked>)
    requires
        a.to_multiset() == b.to_multiset(),
    ensures
        label_sum(a) == label_sum(b),
    decreases a.len(),
{
    broadcast use vstd::seq_lib::group_to_multiset_ensures;
    broadcast use vstd::multiset::group_multiset_axioms;

    assert(a.to_multiset().len() == a.len() && b.to_multiset().len() == b.len());
    if a.len() > 0 {
        let x = a.last();
        assert(a.contains(x)) by {
            assert(a[a.len() - 1] == x);
        }
        assert(b.to_multiset().count(x) > 0);
        assert(b.contains(x));
        let i = choose|i: int| 0 <= i < b.len() && b[i] == x;
        let rest = a.drop_last();
        assert(a =~= rest.push(x));
        assert(a.to_multiset() =~= rest.to_multiset().insert(x));
        assert(b.remove(i).to_multiset() =~= b.to_multiset().remove(x));
        assert(rest.to_multiset() =~= b.remove(i).to_multiset());
        lemma_label_sum_ignores_order(rest, b.remove(i));
        lemma_label_sum_without(b, i);
    }
}

proof fn lemma_label_sum_without(s: Seq<Ranked>, i: int)
    requires
        0 <= i < s.len(),
    ensures
        label_sum(s) == label_sum(s.remove(i)) + s[i].tag,
    decreases s.len(),
{
    if i == s.len() - 1 {
        assert(s.remove(i) =~= s.drop_last());
    } else {
        lemma_label_sum_without(s.drop_last(), i);
        assert(s.remove(i).drop_last() =~= s.drop_last().remove(i));
    }
}

/// Which neighbours the heap holds, and so how many of them are fraudulent,
/// does not depend on the order in which they came, if no other lies as near
/// as the worst one held: if no more than five lie within the heap's reach, or
/// fillers are left, which reach everywhere.
pub proof fn law_votes_ignore_order(given: Seq<Ranked>, shuffled: Seq<Ranked>)
    requires
        given.to_multiset() == shuffled.to_multiset(),
        ({
            let reach = worst_dist(offer_all(fillers(), given));
            reach == u64::MAX || within(given.to_multiset(), reach).len() <= 5
        }),
    ensures
        offer_all(fillers(), given).to_multiset() == offer_all(fillers(), shuffled).to_multiset(),
        label_sum(offer_all(fillers(), given)) == label_sum(offer_all(fillers(), shuffled)),
{
    law_gate_ignores_order(given, shuffled);
    if worst_dist(offer_all(fillers(), given)) == u64::MAX {
        lemma_same_with_fillers(given, shuffled);
    } else {
        lemma_held_is_within_reach(given);
        lemma_held_is_within_reach(shuffled);
    }
    lemma_label_sum_ignores_order(offer_all(fillers(), given), offer_all(fillers(), shuffled));
}

/// Five labels are added up, each as it is.
pub proof fn law_labels_are_added_up(s: Seq<Ranked>)
    requires
        s.len() == 5,
    ensures
        label_sum(s) == s[0].tag + s[1].tag + s[2].tag + s[3].tag + s[4].tag,
{
    reveal_with_fuel(label_sum, 6);
}

/// A heap begins with five fillers, which no distance exceeds and which count
/// as honest.
pub proof fn law_heap_begins_with_fillers()
    ensures
        fillers().len() == 5,
        forall|i: int|
            0 <= i < 5 ==> #[trigger] fillers()[i] == (Ranked {
                dist: 0xffff_ffff_ffff_ffff,
                tag: 0,
            }),
{
}

} // verus!
