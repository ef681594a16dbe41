use copernica::faces::{Tcp, Udp};
use copernica::packets::{request, response, Data, Packet};

#[test]
fn tcp_vector_of_faces_and_calls_trait_methods() {
    let f1 = Tcp::new();
    let f2 = Tcp::new();
    let faces: Vec<Box<Tcp>> = vec![f1, f2];
    let mut id = 0;
    for face in &faces {
        id = face.id();
    }
    assert!(id >= 0 as u32);
}

#[test]
fn udp_vector_of_faces_and_calls_trait_methods() {
    let f1 = Udp::new();
    let mut f2 = Udp::new();
    f2.set_id(7);
    let faces: Vec<Box<Udp>> = vec![f1, f2];
    let mut id = 0;
    for face in &faces {
        id = face.get_id();
    }
    assert!(id >= 0 as usize);
    assert_eq!(id, 7);
    assert_eq!(faces[0].get_id(), 0);
}

#[test]
fn tcp_queues_what_it_sends_and_has_nothing_to_receive() {
    let mut face = Tcp::with_id(3);
    assert_eq!(face.id(), 3);
    face.send_interest_downstream(request("a".to_string()));
    face.send_data_upstream(response("a".to_string(), Data::Content { bytes: vec![1] }));
    assert_eq!(face.receive_upstream_interest(), None);
    assert_eq!(face.receive_downstream_data(), None);
}

#[test]
fn tcp_remembers_pending_interests_and_hints_apart() {
    let mut face = Tcp::with_id(1);
    let interest = request("wanted/by/someone".to_string());
    let other = request("something/else".to_string());
    face.create_pending_interest(interest.clone());
    assert_eq!(face.contains_pending_interest(interest.clone()), 100);
    assert_eq!(face.contains_forwarding_hint(interest.clone()), 0);
    face.create_forwarding_hint(other.clone());
    assert_eq!(face.contains_forwarding_hint(other), 100);
    assert!(face.forwarding_hint_decoherence() <= 1);
    face.delete_pending_interest(interest.clone());
    assert_eq!(face.contains_pending_interest(interest), 0);
    face.restore_forwarding_hint();
    assert!(face.forwarding_hint_decoherence() <= 1);
}

#[test]
fn udp_keeps_three_representations_apart() {
    let mut face = Udp::new();
    let a = vec![vec![1u16, 2, 3]];
    let b = vec![vec![100u16, 200]];
    let c = vec![vec![2000u16]];
    face.create_pending_request(&a);
    face.create_forwarded_request(&b);
    face.create_forwarding_hint(&c);
    assert_eq!(face.contains_pending_request(&a), 100);
    assert_eq!(face.contains_pending_request(&b), 0);
    assert_eq!(face.contains_forwarded_request(&b), 100);
    assert_eq!(face.contains_forwarded_request(&c), 0);
    assert_eq!(face.contains_forwarding_hint(&c), 100);
    assert_eq!(face.contains_forwarding_hint(&a), 0);
    face.delete_pending_request(&a);
    face.delete_forwarded_request(&b);
    assert_eq!(face.contains_pending_request(&a), 0);
    assert_eq!(face.contains_forwarded_request(&b), 0);
    assert_eq!(face.pending_request_decoherence(), 0);
    assert_eq!(face.forwarded_request_decoherence(), 0);
    assert_eq!(face.forwarding_hint_decoherence(), 0);
    face.partially_forget_pending_request();
    face.partially_forget_forwarded_request();
    face.partially_forget_forwarding_hint();
    assert_eq!(face.contains_pending_request(&a), 0);
}

#[test]
fn tcp_forgetting_clears_a_bit_of_a_full_hint_and_nothing_else() {
    let mut face = Tcp::with_id(3);
    let all = Packet::Request { sdri: vec![(0..2048u16).collect()] };
    face.create_pending_interest(all.clone());
    face.create_forwarding_hint(all.clone());
    assert_eq!(face.forwarding_hint_decoherence(), 100);
    face.restore_forwarding_hint();
    assert!(face.forwarding_hint_decoherence() < 100);
    assert_eq!(face.contains_pending_interest(all), 100);
    assert_eq!(face.id(), 3);
}

#[test]
fn udp_forgetting_clears_a_bit_of_the_full_representation_it_names() {
    let mut face = Udp::new();
    face.set_id(5);
    let all: Vec<Vec<u16>> = vec![(0..2048u16).collect()];
    face.create_pending_request(&all);
    face.create_forwarded_request(&all);
    face.create_forwarding_hint(&all);

    face.partially_forget_pending_request();
    assert!(face.pending_request_decoherence() < 100);
    assert_eq!(face.forwarded_request_decoherence(), 100);
    assert_eq!(face.forwarding_hint_decoherence(), 100);

    face.partially_forget_forwarded_request();
    assert!(face.forwarded_request_decoherence() < 100);
    assert_eq!(face.forwarding_hint_decoherence(), 100);

    face.partially_forget_forwarding_hint();
    assert!(face.forwarding_hint_decoherence() < 100);
    assert_eq!(face.get_id(), 5);
}
