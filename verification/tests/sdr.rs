use copernica::packets::{request, response, Data};
use copernica::sdr::SparseDistributedRepresentation;

#[test]
fn interest_100_percent_present() {
    let interest = request("interested/in/world/affairs".to_string());
    let mut sdr = SparseDistributedRepresentation::new();
    sdr.insert(interest.clone());
    assert_eq!(sdr.contains(interest), 100);
}

#[test]
fn decoherence_restoration() {
    let mut sdr = SparseDistributedRepresentation::new();
    sdr.fill_1s();
    sdr.restore();
    assert!(sdr.decoherence() < 40);
}

#[test]
fn a_fresh_representation_holds_nothing() {
    let mut sdr = SparseDistributedRepresentation::new();
    assert_eq!(sdr.decoherence(), 0);
    assert_eq!(sdr.contains(request("hello".to_string())), 0);
}

#[test]
fn a_full_representation_holds_everything() {
    let mut sdr = SparseDistributedRepresentation::new();
    sdr.fill_1s();
    assert_eq!(sdr.decoherence(), 100);
    assert_eq!(sdr.contains(request("anything/at/all".to_string())), 100);
}

#[test]
fn deleting_takes_a_name_out() {
    let mut sdr = SparseDistributedRepresentation::new();
    let packet = response("a/name".to_string(), Data::Manifest { chunk_count: 3 });
    sdr.insert(packet.clone());
    assert_eq!(sdr.contains(packet.clone()), 100);
    sdr.delete(packet.clone());
    assert_eq!(sdr.contains(packet), 0);
    assert_eq!(sdr.decoherence(), 0);
}

#[test]
fn containment_is_the_share_of_set_bits_rounded_down() {
    let mut sdr = SparseDistributedRepresentation::new();
    sdr.insert_index(&vec![vec![1, 2, 3]]);
    assert_eq!(sdr.contains_index(&vec![vec![1, 2, 3]]), 100);
    assert_eq!(sdr.contains_index(&vec![vec![1, 2, 4]]), 66);
    assert_eq!(sdr.contains_index(&vec![vec![1], vec![7, 8]]), 33);
    assert_eq!(sdr.contains_index(&vec![vec![1, 1, 9]]), 66);
    assert_eq!(sdr.contains_index(&vec![vec![1, 9, 10, 11, 12, 13, 14, 15]]), 12);
    assert_eq!(sdr.contains_index(&vec![vec![5, 6]]), 0);
    assert_eq!(sdr.contains_index(&vec![]), 0);
    assert_eq!(sdr.contains_index(&vec![vec![], vec![]]), 0);
}

#[test]
fn decoherence_is_the_share_of_set_bits_rounded_down() {
    let mut sdr = SparseDistributedRepresentation::new();
    let some: Vec<u16> = (0..21).collect();
    sdr.insert_index(&vec![some]);
    assert_eq!(sdr.decoherence(), 1);
    let more: Vec<u16> = (0..1024).collect();
    sdr.insert_index(&vec![more]);
    assert_eq!(sdr.decoherence(), 50);
    sdr.insert_index(&vec![vec![2047]]);
    assert_eq!(sdr.decoherence(), 50);
}

#[test]
fn forgetting_clears_exactly_the_bits_picked() {
    let mut sdr = SparseDistributedRepresentation::new();
    sdr.insert_index(&vec![vec![10, 20, 30, 40]]);
    sdr.forget(&vec![20, 40, 40, 50]);
    assert_eq!(sdr.contains_index(&vec![vec![10]]), 100);
    assert_eq!(sdr.contains_index(&vec![vec![30]]), 100);
    assert_eq!(sdr.contains_index(&vec![vec![20]]), 0);
    assert_eq!(sdr.contains_index(&vec![vec![40]]), 0);
    assert_eq!(sdr.contains_index(&vec![vec![10, 20, 30, 40]]), 50);
}

#[test]
fn restoring_sets_no_bit() {
    let mut sdr = SparseDistributedRepresentation::new();
    sdr.insert_index(&vec![vec![1, 2, 3]]);
    sdr.partially_forget();
    assert_eq!(sdr.contains_index(&vec![vec![4, 5, 6, 2000]]), 0);
    assert!(sdr.decoherence() == 0);
}

#[test]
fn representations_compare_by_their_bits() {
    let mut a = SparseDistributedRepresentation::new();
    let mut b = SparseDistributedRepresentation::new();
    assert!(a == b);
    a.insert_index(&vec![vec![7]]);
    assert!(a != b);
    b.insert_index(&vec![vec![7, 7]]);
    assert!(a == b);
    let c = a.clone();
    assert!(c == a);
    a.delete_index(&vec![vec![7]]);
    assert!(c != a);
}

#[test]
fn forgetting_clears_a_bit_of_a_full_representation() {
    let mut sdr = SparseDistributedRepresentation::new();
    sdr.fill_1s();
    sdr.partially_forget();
    assert!(sdr.decoherence() < 100);
    let mut sdr = SparseDistributedRepresentation::new();
    sdr.fill_1s();
    sdr.restore();
    assert!(sdr.contains_index(&vec![(0..2048u16).collect()]) < 100);
}
