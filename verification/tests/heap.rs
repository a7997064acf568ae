use rinha_fraud::heap::{KnnHeap, NEIGHBOURS};
use rinha_fraud::ranked::Ranked;
use rinha_fraud::select::Selection;

fn filled(given: &[(u64, u8)]) -> KnnHeap {
    let mut heap = KnnHeap::new();
    for &(d, l) in given {
        heap.insert(d, l);
    }
    heap
}

#[test]
fn empty_heap_reaches_everywhere() {
    let heap = KnnHeap::new();
    assert_eq!(heap.gate(), u64::MAX);
    assert_eq!(heap.fraud_count(), 0);
    assert_eq!(NEIGHBOURS, 5);
}

#[test]
fn gate_is_infinite_until_five_are_held() {
    let mut heap = filled(&[(1, 1), (2, 1), (3, 1), (4, 1)]);
    assert_eq!(heap.gate(), u64::MAX);
    heap.insert(7, 1);
    assert_eq!(heap.gate(), 7);
    assert_eq!(heap.fraud_count(), 5);
}

#[test]
fn nearer_neighbour_drives_out_the_worst() {
    let mut heap = filled(&[(10, 1), (20, 1), (30, 1), (40, 1), (50, 1)]);
    heap.insert(35, 0);
    assert_eq!(heap.gate(), 40);
    assert_eq!(heap.fraud_count(), 4);
    heap.insert(41, 0);
    assert_eq!(heap.gate(), 40);
    assert_eq!(heap.fraud_count(), 4);
}

#[test]
fn equally_far_newcomer_is_turned_away() {
    let mut heap = filled(&[(10, 1), (20, 1), (30, 1), (40, 1), (50, 1)]);
    heap.insert(50, 0);
    assert_eq!(heap.fraud_count(), 5);
    assert_eq!(heap.gate(), 50);
}

#[test]
fn first_of_the_worst_leaves() {
    let mut heap = filled(&[(9, 0), (9, 1), (9, 1), (9, 1), (9, 1)]);
    heap.insert(1, 0);
    assert_eq!(heap.fraud_count(), 4);
    heap.insert(2, 0);
    assert_eq!(heap.fraud_count(), 3);
}

#[test]
fn largest_distance_is_never_held() {
    let heap = filled(&[(u64::MAX, 1)]);
    assert_eq!(heap.fraud_count(), 0);
}

#[test]
fn gate_does_not_depend_on_the_order() {
    let a = filled(&[(5, 0), (3, 1), (8, 0), (1, 1), (9, 0), (2, 1), (7, 0)]);
    let b = filled(&[(9, 0), (8, 0), (7, 0), (5, 0), (3, 1), (2, 1), (1, 1)]);
    assert_eq!(a.gate(), 7);
    assert_eq!(b.gate(), 7);
    assert_eq!(a.fraud_count(), 3);
    assert_eq!(b.fraud_count(), 3);
}

#[test]
fn votes_do_not_depend_on_the_order() {
    let mut given = [(5, 0), (3, 1), (8, 1), (1, 1), (9, 1), (2, 0), (7, 1)];
    let votes = filled(&given).fraud_count();
    assert_eq!(votes, 3);
    for turn in 0..given.len() {
        given.rotate_left(turn);
        assert_eq!(filled(&given).fraud_count(), votes);
    }
    let a = filled(&[(9, 0), (9, 1), (1, 0), (2, 0), (3, 0), (4, 0)]);
    let b = filled(&[(9, 1), (9, 0), (1, 0), (2, 0), (3, 0), (4, 0)]);
    assert_ne!(a.fraud_count(), b.fraud_count());
}

#[test]
fn heap_keeps_the_five_nearest() {
    let mut state: u64 = 7;
    let mut heap = KnnHeap::new();
    let mut all: Vec<u64> = Vec::new();
    for _ in 0..200 {
        state = state.wrapping_mul(6364136223846793005).wrapping_add(1442695040888963407);
        let d = state >> 40;
        all.push(d);
        heap.insert(d, 1);
    }
    all.sort();
    assert_eq!(heap.gate(), all[4]);
    assert_eq!(heap.label_total(), 5);
}

#[test]
fn label_total_goes_beyond_a_byte() {
    let heap = filled(&[(1, 255), (2, 255), (3, 255), (4, 255), (5, 255)]);
    assert_eq!(heap.label_total(), 1275);
}

fn select(room: usize, dists: &[u64]) -> Vec<(u64, u32)> {
    let mut sel = Selection::new(room);
    for (i, &dist) in dists.iter().enumerate() {
        sel.push_candidate(Ranked { dist, tag: i as u32 });
    }
    sel.into_sorted().iter().map(|x| (x.dist, x.tag)).collect()
}

#[test]
fn selection_sorts_what_fits() {
    assert_eq!(select(4, &[5, 1, 3]), vec![(1, 1), (3, 2), (5, 0)]);
}

#[test]
fn selection_keeps_the_nearest_in_order() {
    assert_eq!(select(2, &[5, 1, 3, 9, 2]), vec![(1, 1), (2, 4)]);
}

#[test]
fn selection_keeps_the_first_of_equals() {
    assert_eq!(select(2, &[4, 4, 4]), vec![(4, 0), (4, 1)]);
}

#[test]
fn selection_puts_a_latecomer_in_the_place_it_took() {
    assert_eq!(select(3, &[4, 1, 4, 1]), vec![(1, 3), (1, 1), (4, 2)]);
}

#[test]
fn selection_without_room_is_empty() {
    assert_eq!(select(0, &[1, 2, 3]), vec![]);
    assert_eq!(select(3, &[]), vec![]);
}
