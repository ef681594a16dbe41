use copernica::broker::{Broker, Decision, Policy, Reason};
use copernica::hbfi::HBFI;
use copernica::identity::PrivateIdentity;
use copernica::link::{InterLinkPacket, LinkId, LinkPacket, ReplyTo};
use copernica::narrow_waist::{NarrowWaistPacket, FRAGMENT_SIZE};
use std::collections::{HashMap, VecDeque};

fn identity(n: u8) -> PrivateIdentity {
    PrivateIdentity::from_seed([n; 32])
}

fn link(n: u32) -> LinkId {
    LinkId::new(n, identity(n as u8), None, ReplyTo::Rf(n))
}

fn request(on: LinkId, hbfi: HBFI) -> InterLinkPacket {
    InterLinkPacket::new(on, LinkPacket::new(on.reply_to(), NarrowWaistPacket::request(hbfi)))
}

fn response(on: LinkId, producer: &PrivateIdentity, hbfi: HBFI, payload: &[u8]) -> InterLinkPacket {
    let nw = NarrowWaistPacket::response(producer, hbfi, &payload.to_vec(), 0, 0).unwrap();
    InterLinkPacket::new(on, LinkPacket::new(on.reply_to(), nw))
}

fn links_of(decision: &Decision) -> Vec<u32> {
    match decision {
        Decision::Forwarded(packets) => packets.iter().map(|p| p.link_id().lookup_id()).collect(),
        Decision::Stored { forward, .. } => forward.iter().map(|p| p.link_id().lookup_id()).collect(),
        _ => panic!("nothing goes out"),
    }
}

fn broker(policy: Policy, links: &[u32]) -> Broker {
    let mut broker = Broker::new(policy);
    for n in links {
        broker.peer_with(link(*n));
    }
    broker
}

#[test]
fn a_packet_from_a_link_that_is_not_known_is_dropped() {
    let mut broker = broker(Policy::TopK(2), &[1, 2]);
    let hbfi = HBFI::new(None, identity(9).public_id(), "app", "m0d", "fun", "arg");
    assert_eq!(broker.on_request(&request(link(3), hbfi), None), Decision::Dropped(Reason::UnknownLink));
    assert_eq!(
        broker.on_response(&response(link(3), &identity(9), hbfi, b"x")),
        Decision::Dropped(Reason::UnknownLink)
    );
    assert!(broker.knows(&link(1)));
    assert!(!broker.knows(&link(3)));
    assert_eq!(broker.len(), 2);
    broker.peer_with(link(1));
    assert_eq!(broker.len(), 2);
}

#[test]
fn a_first_request_goes_out_on_all_other_links() {
    let mut broker = broker(Policy::TopK(1), &[1, 2, 3, 4]);
    let hbfi = HBFI::new(None, identity(9).public_id(), "app", "m0d", "fun", "arg");
    let ilp = request(link(2), hbfi);
    let decision = broker.on_request(&ilp, None);
    assert_eq!(links_of(&decision), vec![1, 3, 4]);
    match decision {
        Decision::Forwarded(packets) => {
            for packet in packets {
                assert_eq!(packet.link_packet(), ilp.link_packet());
            }
        }
        _ => panic!("the request should be forwarded"),
    }
}

#[test]
fn a_copy_of_a_request_in_flight_is_dropped() {
    let mut broker = broker(Policy::TopK(1), &[1, 2, 3]);
    let hbfi = HBFI::new(None, identity(9).public_id(), "app", "m0d", "fun", "arg");
    assert_eq!(links_of(&broker.on_request(&request(link(1), hbfi), None)), vec![2, 3]);
    assert_eq!(broker.on_request(&request(link(1), hbfi), None), Decision::Dropped(Reason::InFlight));
    assert_eq!(broker.on_request(&request(link(2), hbfi), None), Decision::Dropped(Reason::InFlight));
    assert_eq!(
        broker.on_request(&request(link(2), hbfi.offset(5)), None),
        Decision::Dropped(Reason::InFlight)
    );
    let other = HBFI::new(None, identity(9).public_id(), "other", "m0d", "fun", "arg");
    assert_eq!(links_of(&broker.on_request(&request(link(2), other), None)), vec![1, 3]);
}

#[test]
fn a_response_is_stored_and_goes_to_the_links_that_wait() {
    let producer = identity(9);
    let mut broker = broker(Policy::TopK(1), &[1, 2, 3]);
    let hbfi = HBFI::new(None, producer.public_id(), "app", "m0d", "fun", "arg").offset(7);
    broker.on_request(&request(link(1), hbfi), None);
    let answer = response(link(3), &producer, hbfi, b"payload");
    let decision = broker.on_response(&answer);
    assert_eq!(links_of(&decision), vec![1]);
    match decision {
        Decision::Stored { key, value, forward } => {
            assert_eq!(key, hbfi.to_bytes());
            assert_eq!(value, answer.narrow_waist().to_bytes());
            assert_eq!(forward[0], InterLinkPacket::new(link(1), answer.link_packet()));
        }
        _ => panic!("the response should be stored"),
    }
    let again = broker.on_response(&answer);
    assert_eq!(links_of(&again), Vec::<u32>::new());
    assert_eq!(links_of(&broker.on_request(&request(link(1), hbfi), None)), vec![3]);
}

#[test]
fn a_response_that_does_not_verify_is_dropped() {
    let producer = identity(9);
    let mut broker = broker(Policy::TopK(1), &[1, 2]);
    let hbfi = HBFI::new(None, producer.public_id(), "app", "m0d", "fun", "arg");
    broker.on_request(&request(link(1), hbfi), None);
    let good = response(link(2), &producer, hbfi, b"payload");
    let forged = match good.narrow_waist() {
        NarrowWaistPacket::Response { hbfi, nonce, offset, total, len, data, mut signature } => {
            signature[3] ^= 1;
            NarrowWaistPacket::Response { hbfi, nonce, offset, total, len, data, signature }
        }
        NarrowWaistPacket::Request { .. } => unreachable!(),
    };
    let ilp = InterLinkPacket::new(link(2), LinkPacket::new(ReplyTo::Rf(2), forged));
    assert_eq!(broker.on_response(&ilp), Decision::Dropped(Reason::NotAuthentic));
    assert_eq!(broker.route(&ilp, None), Decision::Dropped(Reason::NotAuthentic));
    assert_eq!(broker.on_response(&request(link(2), hbfi)), Decision::Dropped(Reason::NotAuthentic));
    assert_eq!(links_of(&broker.route(&good, None)), vec![1]);
}

#[test]
fn a_request_is_served_from_the_cache() {
    let producer = identity(9);
    let mut broker = broker(Policy::TopK(1), &[1, 2]);
    let hbfi = HBFI::new(None, producer.public_id(), "app", "m0d", "fun", "arg").offset(2);
    let held = NarrowWaistPacket::response(&producer, hbfi, &vec![5; 5], 0, 0).unwrap();
    let cached = held.to_bytes();
    let ilp = request(link(1), hbfi);
    assert_eq!(
        broker.route(&ilp, Some(&cached)),
        Decision::Served(InterLinkPacket::new(link(1), LinkPacket::new(ReplyTo::Rf(1), held)))
    );
    assert_eq!(
        broker.on_request(&ilp, Some(&cached)),
        Decision::Served(InterLinkPacket::new(link(1), LinkPacket::new(ReplyTo::Rf(1), held)))
    );
    let elsewhere = request(link(1), hbfi.offset(3));
    assert_eq!(links_of(&broker.on_request(&elsewhere, Some(&cached))), vec![2]);
    let garbage = vec![1, 2, 3];
    let fresh = request(link(2), HBFI::new(None, producer.public_id(), "a", "b", "c", "d"));
    assert_eq!(links_of(&broker.on_request(&fresh, Some(&garbage))), vec![1]);
}

#[test]
fn requests_follow_the_links_that_answered() {
    let producer = identity(9);
    let mut broker = broker(Policy::TopK(1), &[1, 2, 3, 4]);
    let hbfi = HBFI::new(None, producer.public_id(), "app", "m0d", "fun", "arg");
    assert_eq!(links_of(&broker.on_request(&request(link(1), hbfi), None)), vec![2, 3, 4]);
    assert_eq!(links_of(&broker.on_response(&response(link(3), &producer, hbfi, b"x"))), vec![1]);
    assert_eq!(links_of(&broker.on_request(&request(link(1), hbfi.offset(1)), None)), vec![3]);
    assert_eq!(
        links_of(&broker.on_response(&response(link(3), &producer, hbfi.offset(1), b"y"))),
        vec![1]
    );
    assert_eq!(links_of(&broker.on_request(&request(link(2), hbfi.offset(2)), None)), vec![3]);
}

#[test]
fn the_policy_says_how_many_links_a_request_goes_out_on() {
    let producer = identity(9);
    let hbfi = HBFI::new(None, producer.public_id(), "app", "m0d", "fun", "arg");
    let mut learn = |broker: &mut Broker| {
        broker.on_request(&request(link(1), hbfi), None);
        broker.on_response(&response(link(3), &producer, hbfi, b"x"));
        broker.on_request(&request(link(1), hbfi), None);
        broker.on_response(&response(link(2), &producer, hbfi, b"x"));
        broker.on_request(&request(link(1), hbfi), None);
        broker.on_response(&response(link(2), &producer, hbfi, b"x"));
    };

    let mut two = broker(Policy::TopK(2), &[1, 2, 3, 4]);
    learn(&mut two);
    assert_eq!(links_of(&two.on_request(&request(link(1), hbfi), None)), vec![2, 3]);

    let mut all = broker(Policy::TopK(9), &[1, 2, 3, 4]);
    learn(&mut all);
    assert_eq!(links_of(&all.on_request(&request(link(1), hbfi), None)), vec![2, 3, 4]);

    let mut none = broker(Policy::TopK(0), &[1, 2, 3, 4]);
    learn(&mut none);
    assert_eq!(links_of(&none.on_request(&request(link(1), hbfi), None)), Vec::<u32>::new());

    let mut half = broker(Policy::Above { num: 1, den: 2 }, &[1, 2, 3, 4]);
    learn(&mut half);
    assert_eq!(links_of(&half.on_request(&request(link(1), hbfi), None)), Vec::<u32>::new());

    let mut third = broker(Policy::Above { num: 1, den: 3 }, &[1, 2, 3, 4]);
    learn(&mut third);
    assert_eq!(links_of(&third.on_request(&request(link(1), hbfi), None)), vec![2]);

    let mut fifth = broker(Policy::Above { num: 1, den: 5 }, &[1, 2, 3, 4]);
    learn(&mut fifth);
    assert_eq!(links_of(&fifth.on_request(&request(link(1), hbfi), None)), vec![2, 3]);

    let mut any = broker(Policy::Above { num: 0, den: 1 }, &[1, 2, 3, 4]);
    learn(&mut any);
    assert_eq!(links_of(&any.on_request(&request(link(4), hbfi), None)), vec![2, 3, 1]);
}

#[test]
fn maintenance_leaves_sparse_representations_alone() {
    let mut broker = broker(Policy::TopK(1), &[1, 2]);
    let hbfi = HBFI::new(None, identity(9).public_id(), "app", "m0d", "fun", "arg");
    broker.on_request(&request(link(1), hbfi), None);
    broker.maintain();
    assert_eq!(broker.on_request(&request(link(2), hbfi), None), Decision::Dropped(Reason::InFlight));
    assert_eq!(broker.len(), 2);
}

struct Node {
    broker: Broker,
    cache: HashMap<Vec<u8>, Vec<u8>>,
    producer: PrivateIdentity,
    object: Vec<u8>,
    neighbours: HashMap<u32, (usize, u32)>,
}

const STORE: u32 = 100;
const REQUESTER: u32 = 200;

fn object_hbfi(producer: &PrivateIdentity) -> HBFI {
    HBFI::new(None, producer.public_id(), "hello", "m0d", "fun", "arg")
}

#[test]
fn broker_four_node_chain() {
    let mut nodes: Vec<Node> = Vec::new();
    for n in 0..4usize {
        let mut broker = Broker::new(Policy::TopK(1));
        let mut neighbours = HashMap::new();
        broker.peer_with(link(STORE));
        if n > 0 {
            broker.peer_with(link(n as u32 - 1));
            neighbours.insert(n as u32 - 1, (n - 1, n as u32));
        }
        if n < 3 {
            broker.peer_with(link(n as u32 + 1));
            neighbours.insert(n as u32 + 1, (n + 1, n as u32));
        }
        if n == 0 {
            broker.peer_with(link(REQUESTER));
        }
        nodes.push(Node {
            broker,
            cache: HashMap::new(),
            producer: identity(50 + n as u8),
            object: vec![n as u8; 1024],
            neighbours,
        });
    }
    let wanted = object_hbfi(&nodes[3].producer);
    let mut fetched: Vec<u8> = Vec::new();
    for chunk in 0..2u64 {
        let mut inbound: VecDeque<(usize, InterLinkPacket)> = VecDeque::new();
        inbound.push_back((0, request(link(REQUESTER), wanted.offset(chunk))));
        let mut delivered: Vec<NarrowWaistPacket> = Vec::new();
        let mut steps = 0;
        while let Some((at, ilp)) = inbound.pop_front() {
            steps += 1;
            assert!(steps < 100, "the fetch should come to an end");
            let node = &mut nodes[at];
            let key = ilp.narrow_waist().hbfi().to_bytes();
            let cached = node.cache.get(&key).cloned();
            let out = match node.broker.route(&ilp, cached.as_ref()) {
                Decision::Dropped(_) => vec![],
                Decision::Served(packet) => vec![packet],
                Decision::Forwarded(packets) => packets,
                Decision::Stored { key, value, forward } => {
                    node.cache.insert(key, value);
                    forward
                }
            };
            for packet in out {
                let to = packet.link_id().lookup_id();
                if to == REQUESTER {
                    delivered.push(packet.narrow_waist());
                } else if to == STORE {
                    let asked = packet.narrow_waist();
                    let holds = object_hbfi(&node.producer);
                    if matches!(asked, NarrowWaistPacket::Request { .. })
                        && asked.hbfi().offset(0) == holds
                    {
                        let pieces: Vec<&[u8]> = node.object.chunks(FRAGMENT_SIZE).collect();
                        let piece = pieces[asked.hbfi().ost as usize].to_vec();
                        let nw = asked
                            .transmute(&node.producer, &piece, asked.hbfi().ost, pieces.len() as u64 - 1)
                            .unwrap();
                        let lp = LinkPacket::new(ReplyTo::Rf(STORE), nw);
                        inbound.push_back((at, InterLinkPacket::new(link(STORE), lp)));
                    }
                } else {
                    let (next, back) = node.neighbours[&to];
                    inbound.push_back((next, InterLinkPacket::new(link(back), packet.link_packet())));
                }
            }
        }
        assert_eq!(delivered.len(), 1);
        fetched.extend(delivered[0].data(None).unwrap());
    }
    assert_eq!(fetched, vec![3u8; 1024]);
    for node in &nodes {
        assert_eq!(node.cache.len(), 2);
        assert!(node.cache.contains_key(&wanted.to_bytes()));
        assert!(node.cache.contains_key(&wanted.offset(1).to_bytes()));
    }

    let again = request(link(REQUESTER), wanted);
    let cached = nodes[0].cache.get(&wanted.to_bytes()).cloned();
    match nodes[0].broker.route(&again, cached.as_ref()) {
        Decision::Served(packet) => {
            assert_eq!(packet.link_id(), link(REQUESTER));
            assert_eq!(packet.narrow_waist().data(None), Ok(vec![3u8; 1022]));
        }
        _ => panic!("the second fetch should be served from the cache"),
    }
}

fn numbered(n: u32) -> HBFI {
    HBFI::new(
        None,
        identity(9).public_id(),
        &format!("app{}", n),
        &format!("m0d{}", n),
        &format!("fun{}", n),
        &format!("arg{}", n),
    )
}

fn crowded() -> Broker {
    let mut broker = broker(Policy::TopK(1), &[1, 2]);
    for n in 0..60 {
        broker.on_request(&request(link(1), numbered(n)), None);
    }
    broker
}

#[test]
fn maintenance_makes_a_crowded_representation_forget() {
    let mut kept = crowded();
    assert_eq!(
        kept.on_request(&request(link(2), numbered(0)), None),
        Decision::Dropped(Reason::InFlight)
    );

    let mut maintained = crowded();
    maintained.maintain();
    assert_eq!(maintained.len(), 2);
    assert!(maintained.knows(&link(1)));
    assert_eq!(links_of(&maintained.on_request(&request(link(2), numbered(0)), None)), vec![1]);
}
