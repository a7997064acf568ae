//! Picking the nearest candidates of many, in order of distance.
use crate::ranked::{
    first_worst, is_first_worst, keeps_nearest, lemma_first_worst, lemma_first_worst_is,
    lemma_keeps_itself, lemma_offer_keeps_nearest, offer, splits, Ranked,
};
use vstd::multiset::Multiset;
use vstd::prelude::*;

verus! {

/// Takes `x` in while there is room for it among `n`; after that only in
/// place of the first worst one.
pub open spec fn take_in(s: Seq<Ranked>, n: nat, x: Ranked) -> Seq<Ranked> {
    if s.len() < n {
        s.push(x)
    } else {
        offer(s, x)
    }
}

/// What is picked of `xs`, taken in one by one, with room for `n`.
pub open spec fn pick(xs: Seq<Ranked>, n: nat) -> Seq<Ranked>
    decreases xs.len(),
{
    if xs.len() == 0 {
        Seq::empty()
    } else {
        take_in(pick(xs.drop_last(), n), n, xs.last())
    }
}

/// Puts `x` into an ordered sequence, behind everything that is as close.
pub open spec fn insert_sorted(s: Seq<Ranked>, x: Ranked) -> Seq<Ranked>
    decreases s.len(),
{
    if s.len() > 0 && s.last().dist > x.dist {
        insert_sorted(s.drop_last(), x).push(s.last())
    } else {
        s.push(x)
    }
}

/// The items of `s` by distance, those at the same distance in their order in
/// `s`.
pub open spec fn sort(s: Seq<Ranked>) -> Seq<Ranked>
    decreases s.len(),
{
    if s.len() == 0 {
        Seq::empty()
    } else {
        insert_sorted(sort(s.drop_last()), s.last())
    }
}

/// No item is closer than one before it.
pub open spec fn is_sorted(s: Seq<Ranked>) -> bool {
    forall|i: int, j: int| 0 <= i <= j < s.len() ==> (#[trigger] s[i]).dist <= (#[trigger] s[j]).dist
}

/// A bounded selection of the nearest candidates.
pub struct Selection {
    room: usize,
    items: Vec<Ranked>,
    worst: usize,
}

impl View for Selection {
    type V = Seq<Ranked>;

    closed spec fn view(&self) -> Seq<Ranked> {
        self.items@
    }
}

impl Selection {
    /// How many items fit.
    pub closed spec fn room(&self) -> nat {
        self.room as nat
    }

    #[verifier::type_invariant]
    spec fn worst_is_known(self) -> bool {
        &&& self.items@.len() <= self.room
        &&& self.items@.len() > 0 ==> is_first_worst(self.items@, self.worst as int)
    }

    /// An empty selection with room for `room`.
    pub fn new(room: usize) -> (sel: Self)
        ensures
            sel@ == Seq::<Ranked>::empty(),
            sel.room() == room,
    {
        let items: Vec<Ranked> = Vec::new();
        Selection { room, items, worst: 0 }
    }

    /// Considers one more candidate.
    pub fn push_candidate(&mut self, x: Ranked)
        ensures
            final(self)@ == take_in(old(self)@, old(self).room(), x),
            final(self).room() == old(self).room(),
    {
        proof {
            use_type_invariant(&*self);
        }
        let room = self.room;
        let mut worst: usize = self.worst;
        let mut items: Vec<Ranked> = Vec::new();
        std::mem::swap(&mut items, &mut self.items);
        let ghost before = items@;
        if items.len() < room {
            if items.len() == 0 || x.dist > items[worst].dist {
                worst = items.len();
            }
            items.push(x);
            assert(forall|j: int| 0 <= j < before.len() ==> items@[j] == before[j]);
        } else if items.len() > 0 && x.dist < items[worst].dist {
            proof {
                lemma_first_worst_is(before, worst as int);
            }
            items[worst] = x;
            assert(items@ =~= before.update(first_worst(before), x));
            worst = 0;
            for i in 1..items.len()
                invariant
                    worst < i <= items.len(),
                    forall|j: int| 0 <= j < i ==> (#[trigger] items@[j]).dist <= items@[worst as int].dist,
                    forall|j: int|
                        0 <= j < worst ==> (#[trigger] items@[j]).dist < items@[worst as int].dist,
            {
                if items[i].dist > items[worst].dist {
                    worst = i;
                }
            }
        } else {
            proof {
                if before.len() > 0 {
                    lemma_first_worst_is(before, worst as int);
                }
            }
        }
        *self = Selection { room, items, worst };
    }

    /// The selected items by distance.
    pub fn into_sorted(self) -> (items: Vec<Ranked>)
        ensures
            items@ == sort(self@),
    {
        let mut items: Vec<Ranked> = self.items;
        let ghost given = items@;
        let n = items.len();
        let mut i: usize = 0;
        assert(given.take(0) =~= Seq::<Ranked>::empty());
        assert(items@ =~= sort(given.take(0)) + given.skip(0));
        while i < n
            invariant
                i <= n,
                n == given.len(),
                items@.len() == n,
                sort(given.take(i as int)).len() == i,
                items@ == sort(given.take(i as int)) + given.skip(i as int),
            decreases n - i,
        {
            let ghost sorted = sort(given.take(i as int));
            let t = items[i];
            assert(t == given[i as int]);
            let mut j: usize = i;
            while j > 0 && items[j - 1].dist > t.dist
                invariant
                    j <= i < n,
                    n == given.len(),
                    items@.len() == n,
                    sorted.len() == i,
                    forall|a: int| 0 <= a < j ==> items@[a] == sorted[a],
                    forall|a: int| j <= a < i ==> (#[trigger] sorted[a]).dist > t.dist,
                    forall|a: int| j <= a < i ==> items@[a + 1] == #[trigger] sorted[a],
                    forall|a: int| i < a < n ==> items@[a] == given[a],
                decreases j,
            {
                assert(items@[j - 1] == sorted[j - 1]);
                items[j] = items[j - 1];
                j = j - 1;
            }
            items[j] = t;
            proof {
                lemma_insertion(sorted, t, j as int);
                assert(given.take(i + 1).drop_last() =~= given.take(i as int));
                assert(given.take(i + 1).last() == t);
                assert(sort(given.take(i + 1)) == insert_sorted(sorted, t));
                let after = insert_sorted(sorted, t) + given.skip(i + 1);
                assert forall|a: int| 0 <= a < n implies items@[a] == after[a] by {
                    if j < a <= i {
                        assert(items@[(a - 1) + 1] == sorted[a - 1]);
                    }
                }
                assert(items@ =~= after);
            }
            i = i + 1;
        }
        assert(given.take(n as int) =~= given);
        assert(items@ =~= sort(given));
        items
    }
}

/// Where `x` goes: behind the first `j` items, if the `j`th is as close as `x`
/// and all later ones are further away.
proof fn lemma_insertion(s: Seq<Ranked>, x: Ranked, j: int)
    requires
        0 <= j <= s.len(),
        j > 0 ==> s[j - 1].dist <= x.dist,
        forall|a: int| j <= a < s.len() ==> (#[trigger] s[a]).dist > x.dist,
    ensures
        insert_sorted(s, x) == s.take(j).push(x) + s.skip(j),
    decreases s.len(),
{
    if j < s.len() {
        let t = s.drop_last();
        assert(s.last() == s[s.len() - 1]);
        lemma_insertion(t, x, j);
        assert(t.take(j) =~= s.take(j));
        assert((s.take(j).push(x) + t.skip(j)).push(s.last()) =~= s.take(j).push(x) + s.skip(j));
    } else {
        assert(s.take(j).push(x) + s.skip(j) =~= s.push(x));
    }
}

proof fn lemma_insert_sorted(s: Seq<Ranked>, x: Ranked)
    requires
        is_sorted(s),
    ensures
        is_sorted(insert_sorted(s, x)),
        insert_sorted(s, x).len() == s.len() + 1,
        insert_sorted(s, x).to_multiset() == s.to_multiset().insert(x),
        forall|i: int|
            0 <= i < s.len() + 1 ==> (#[trigger] insert_sorted(s, x)[i]).dist <= x.dist || (s.len()
                > 0 && insert_sorted(s, x)[i].dist <= s.last().dist),
    decreases s.len(),
{
    broadcast use vstd::seq_lib::group_to_multiset_ensures;
    broadcast use vstd::multiset::group_multiset_axioms;

    if s.len() > 0 && s.last().dist > x.dist {
        let t = s.drop_last();
        lemma_insert_sorted(t, x);
        let u = insert_sorted(t, x);
        assert(s =~= t.push(s.last()));
        assert(u.push(s.last()).to_multiset() =~= s.to_multiset().insert(x));
        assert(t.len() > 0 ==> t.last() == s[t.len() - 1]);
    }
}

/// Sorting orders the items and keeps them all.
pub proof fn lemma_sort(s: Seq<Ranked>)
    ensures
        is_sorted(sort(s)),
        sort(s).len() == s.len(),
        sort(s).to_multiset() == s.to_multiset(),
    decreases s.len(),
{
    broadcast use vstd::seq_lib::group_to_multiset_ensures;
    broadcast use vstd::multiset::group_multiset_axioms;

    if s.len() > 0 {
        lemma_sort(s.drop_last());
        lemma_insert_sorted(sort(s.drop_last()), s.last());
        assert(s =~= s.drop_last().push(s.last()));
    } else {
        assert(sort(s) =~= s);
    }
}

/// What is picked are nearest candidates, as many as there is room for.
pub proof fn lemma_pick_keeps_nearest(xs: Seq<Ranked>, n: nat)
    ensures
        pick(xs, n).len() == if xs.len() < n { xs.len() } else { n },
        keeps_nearest(pick(xs, n), xs.to_multiset()),
    decreases xs.len(),
{
    broadcast use vstd::seq_lib::group_to_multiset_ensures;
    broadcast use vstd::multiset::group_multiset_axioms;

    if xs.len() == 0 {
        assert(xs =~= Seq::<Ranked>::empty());
        lemma_keeps_itself(xs);
    } else {
        let ys = xs.drop_last();
        let x = xs.last();
        lemma_pick_keeps_nearest(ys, n);
        let p = pick(ys, n);
        assert(xs =~= ys.push(x));
        assert(xs.to_multiset() =~= ys.to_multiset().insert(x));
        if p.len() < n {
            // Nothing has been turned away yet.
            let rest = choose|rest: Multiset<Ranked>| #[trigger] splits(p, rest, ys.to_multiset());
            assert(p.to_multiset().len() == p.len() && ys.to_multiset().len() == ys.len());
            assert(rest.len() == 0);
            assert(p.push(x).to_multiset().add(rest) =~= xs.to_multiset());
            assert forall|r: Ranked, i: int|
                #![trigger rest.count(r), p.push(x)[i]]
                rest.count(r) > 0 && 0 <= i < p.push(x).len() implies p.push(x)[i].dist
                <= r.dist by {
                assert(rest.count(r) <= rest.len());
            }
            assert(splits(p.push(x), rest, xs.to_multiset()));
        } else if n > 0 {
            lemma_first_worst(p);
            lemma_offer_keeps_nearest(p, ys.to_multiset(), x);
        } else {
            assert(p =~= Seq::<Ranked>::empty());
            assert(p.to_multiset().add(xs.to_multiset()) =~= xs.to_multiset());
            assert(splits(p, xs.to_multiset(), xs.to_multiset()));
        }
    }
}

/// The selection comes out in order of distance, holds as many candidates as
/// there is room for, and leaves out none that is closer than one it holds.
pub proof fn law_selection_is_the_nearest_in_order(xs: Seq<Ranked>, n: nat)
    ensures
        is_sorted(sort(pick(xs, n))),
        sort(pick(xs, n)).len() == if xs.len() < n { xs.len() } else { n },
        keeps_nearest(sort(pick(xs, n)), xs.to_multiset()),
{
    broadcast use vstd::seq_lib::group_to_multiset_ensures;
    broadcast use vstd::multiset::group_multiset_axioms;

    lemma_pick_keeps_nearest(xs, n);
    let p = pick(xs, n);
    let s = sort(p);
    lemma_sort(p);
    let rest = choose|rest: Multiset<Ranked>| #[trigger] splits(p, rest, xs.to_multiset());
    assert forall|r: Ranked, i: int|
        #![trigger rest.count(r), s[i]]
        rest.count(r) > 0 && 0 <= i < s.len() implies s[i].dist <= r.dist by {
        assert(s.contains(s[i]));
        assert(s.to_multiset().count(s[i]) > 0);
        assert(p.contains(s[i]));
        let k = choose|k: int| 0 <= k < p.len() && p[k] == s[i];
        assert(p[k].dist <= r.dist);
    }
    assert(splits(s, rest, xs.to_multiset()));
}

/// Candidates are taken in as they come while there is room, and after that
/// only in place of a farther one.
pub proof fn law_candidates_are_taken_in_order(xs: Seq<Ranked>, x: Ranked, n: nat)
    ensures
        pick(Seq::empty(), n) == Seq::<Ranked>::empty(),
        pick(xs, n).len() < n ==> pick(xs.push(x), n) == pick(xs, n).push(x),
        pick(xs, n).len() >= n ==> pick(xs.push(x), n) == offer(pick(xs, n), x),
{
    assert(xs.push(x).drop_last() =~= xs);
}

/// Each item is sorted in behind all that are no farther away and before all
/// that are, so that items at one distance keep their order.
pub proof fn law_items_are_sorted_in(s: Seq<Ranked>, x: Ranked, j: int)
    requires
        0 <= j <= s.len(),
        forall|i: int| 0 <= i < j ==> (#[trigger] sort(s)[i]).dist <= x.dist,
        forall|i: int| j <= i < s.len() ==> (#[trigger] sort(s)[i]).dist > x.dist,
    ensures
        sort(Seq::empty()) == Seq::<Ranked>::empty(),
        sort(s.push(x)) == sort(s).insert(j, x),
{
    assert(s.push(x).drop_last() =~= s);
    lemma_sort(s);
    if j > 0 {
        assert(sort(s)[j - 1].dist <= x.dist);
    }
    lemma_insertion(sort(s), x, j);
    assert(sort(s).take(j).push(x) + sort(s).skip(j) =~= sort(s).insert(j, x));
}

} // verus!
