use copernica::error::PacketError;
use copernica::hbfi::HBFI;
use copernica::identity::PrivateIdentity;
use copernica::link::{LinkId, ReplyTo};
use copernica::narrow_waist::NarrowWaistPacket;
use copernica::protocol::{Event, TxRx};

fn identity(n: u8) -> PrivateIdentity {
    PrivateIdentity::from_seed([n; 32])
}

fn endpoint() -> TxRx {
    TxRx::new(LinkId::new(1, identity(1), None, ReplyTo::Rf(3)), identity(2))
}

fn cached(producer: &PrivateIdentity, hbfi: HBFI, payload: &[u8]) -> Vec<u8> {
    NarrowWaistPacket::response(producer, hbfi, &payload.to_vec(), 0, 0).unwrap().to_bytes()
}

#[test]
fn a_fetch_joins_what_the_cache_holds() {
    let producer = identity(3);
    let txrx = endpoint();
    let hbfi = HBFI::new(None, producer.public_id(), "app", "m0d", "fun", "arg");
    let mut fetch = txrx.request(hbfi, 0, 2);
    assert_eq!(txrx.key(&fetch), hbfi.offset(0).to_bytes());
    assert_eq!(txrx.found(&mut fetch, &cached(&producer, hbfi.offset(0), b"one ")), Ok(()));
    assert_eq!(txrx.key(&fetch), hbfi.offset(1).to_bytes());
    let ask = txrx.ask(&fetch);
    assert_eq!(ask.narrow_waist().hbfi(), hbfi.offset(1));
    assert_eq!(ask.link_id(), txrx.link_id);
    assert_eq!(ask.link_packet().reply_to(), ReplyTo::Rf(3));
    let event = Event::Insert { value: cached(&producer, hbfi.offset(1), b"two ") };
    assert_eq!(txrx.notified(&mut fetch, &event), Ok(()));
    assert!(!fetch.done);
    assert_eq!(txrx.found(&mut fetch, &cached(&producer, hbfi.offset(2), b"three")), Ok(()));
    assert!(fetch.done);
    assert_eq!(fetch.reconstruct, b"one two three".to_vec());
}

#[test]
fn a_removal_brings_nothing_and_the_fetch_moves_on() {
    let producer = identity(3);
    let txrx = endpoint();
    let hbfi = HBFI::new(None, producer.public_id(), "app", "m0d", "fun", "arg");
    let mut fetch = txrx.request(hbfi, 4, 5);
    assert_eq!(txrx.notified(&mut fetch, &Event::Remove), Ok(()));
    assert_eq!(fetch.counter, 5);
    assert!(!fetch.done);
    assert_eq!(txrx.notified(&mut fetch, &Event::Remove), Ok(()));
    assert!(fetch.done);
    assert_eq!(fetch.reconstruct, Vec::<u8>::new());
}

#[test]
fn what_is_no_response_stops_the_fetch_where_it_is() {
    let producer = identity(3);
    let txrx = endpoint();
    let hbfi = HBFI::new(None, producer.public_id(), "app", "m0d", "fun", "arg");
    let mut fetch = txrx.request(hbfi, 0, 2);
    assert_eq!(txrx.found(&mut fetch, b"garbage"), Err(PacketError::MalformedPacket));
    let request = NarrowWaistPacket::request(hbfi).to_bytes();
    assert_eq!(txrx.found(&mut fetch, &request), Err(PacketError::MalformedPacket));
    let mut forged = cached(&producer, hbfi, b"x");
    let last = forged.len() - 1;
    forged[last] ^= 1;
    assert_eq!(txrx.found(&mut fetch, &forged), Err(PacketError::AuthenticationFailed));
    assert_eq!(fetch.counter, 0);
    assert!(!fetch.done);
    assert!(fetch.reconstruct.is_empty());
}

#[test]
fn a_sealed_stream_is_fetched_with_the_endpoints_key() {
    let producer = identity(3);
    let txrx = endpoint();
    let hbfi = HBFI::new(Some(identity(2).public_id()), producer.public_id(), "a", "b", "c", "d");
    let mut fetch = txrx.request(hbfi, 9, 9);
    assert_eq!(txrx.found(&mut fetch, &cached(&producer, hbfi.offset(9), &[7; 1022])), Ok(()));
    assert!(fetch.done);
    assert_eq!(fetch.reconstruct, vec![7; 1022]);

    let stranger = TxRx::new(LinkId::new(1, identity(1), None, ReplyTo::Mpsc), identity(8));
    let mut fetch = stranger.request(hbfi, 9, 9);
    assert_eq!(
        stranger.found(&mut fetch, &cached(&producer, hbfi.offset(9), &[7; 4])),
        Err(PacketError::WrongKey)
    );
}

#[test]
fn a_fetch_of_nothing_is_done() {
    let txrx = endpoint();
    let hbfi = HBFI::new(None, identity(3).public_id(), "app", "m0d", "fun", "arg");
    assert!(txrx.request(hbfi, 1, 0).done);
    assert!(!txrx.request(hbfi, 1, 1).done);
}

#[test]
fn the_endpoint_responds_as_itself() {
    let txrx = endpoint();
    let hbfi = HBFI::new(None, identity(2).public_id(), "app", "m0d", "fun", "arg");
    let ilp = txrx.respond(hbfi, &vec![5; 5]).unwrap();
    assert_eq!(ilp.narrow_waist().data(None), Ok(vec![5; 5]));
    assert_eq!(ilp.link_id(), txrx.link_id);
    assert_eq!(txrx.respond(hbfi, &vec![5; 2000]), Err(PacketError::MalformedPacket));
    let other = HBFI::new(None, identity(3).public_id(), "app", "m0d", "fun", "arg");
    assert_eq!(txrx.respond(other, &vec![5; 5]), Err(PacketError::WrongKey));
}
