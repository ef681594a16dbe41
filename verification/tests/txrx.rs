use copernica::congestion::{CongestionControl, CONGESTION_CONTROL_SIZE, INITIAL_TIMEOUT};
use copernica::error::PacketError;
use copernica::hbfi::HBFI;
use copernica::identity::PrivateIdentity;
use copernica::link::{InterLinkPacket, LinkId, LinkPacket, ReplyTo};
use copernica::narrow_waist::NarrowWaistPacket;
use copernica::txrx::{Discipline, Event, Run, TxRx};

fn identity(n: u8) -> PrivateIdentity {
    PrivateIdentity::from_seed([n; 32])
}

fn endpoint() -> TxRx {
    TxRx::new(LinkId::new(1, identity(1), None, ReplyTo::Mpsc), identity(2))
}

fn stream(producer: &PrivateIdentity) -> HBFI {
    HBFI::new(None, producer.public_id(), "app", "m0d", "fun", "arg")
}

fn chunk(ost: u64) -> Vec<u8> {
    vec![ost as u8; 3]
}

fn answer(producer: &PrivateIdentity, hbfi: HBFI, ost: u64) -> Event {
    let nw = NarrowWaistPacket::response(producer, hbfi.offset(ost), &chunk(ost), 0, 0).unwrap();
    let link = LinkId::new(9, identity(9), None, ReplyTo::Mpsc);
    Event::Received(InterLinkPacket::new(link, LinkPacket::new(ReplyTo::Mpsc, nw)))
}

fn drive(txrx: &mut TxRx, run: &mut Run, events: Vec<Option<u64>>) -> Vec<u64> {
    let producer = identity(3);
    let hbfi = run.hbfi;
    let mut asked = vec![];
    let mut now = 1_000;
    for event in events {
        let request = match txrx.next_request(run, now) {
            Some(request) => request,
            None => break,
        };
        asked.push(request.narrow_waist().hbfi().ost);
        assert!(txrx.wait_for(&request).is_some());
        now += 10;
        let event = match event {
            Some(ost) => answer(&producer, hbfi, ost),
            None => Event::TimedOut,
        };
        txrx.settle(run, &request, event, now);
    }
    asked
}

#[test]
fn reliable_ordered_yields_exactly_the_offsets_asked_for() {
    let mut txrx = endpoint();
    let hbfi = stream(&identity(3));
    let mut run = txrx.reliable_ordered_request(hbfi, 3, 6);
    let asked = drive(&mut txrx, &mut run, vec![Some(3), Some(4), Some(5), Some(6), Some(7)]);
    assert_eq!(asked, vec![3, 4, 5, 6]);
    assert!(run.is_done());
    assert_eq!(run.offsets, vec![3, 4, 5, 6]);
    assert_eq!(run.finish(), Ok(vec![chunk(3), chunk(4), chunk(5), chunk(6)]));
}

#[test]
fn reliable_ordered_asks_again_for_what_did_not_come() {
    let mut txrx = endpoint();
    let hbfi = stream(&identity(3));
    let mut run = txrx.reliable_ordered_request(hbfi, 0, 2);
    let asked = drive(
        &mut txrx,
        &mut run,
        vec![None, Some(1), Some(0), Some(0), Some(2), None, Some(1), Some(2)],
    );
    assert_eq!(asked, vec![0, 0, 0, 1, 1, 1, 1, 2]);
    assert!(run.is_done());
    assert_eq!(run.offsets, vec![0, 1, 2]);
    assert_eq!(run.finish(), Ok(vec![chunk(0), chunk(1), chunk(2)]));
}

#[test]
fn unreliable_unordered_delivers_in_arrival_order_and_moves_on() {
    let mut txrx = endpoint();
    let hbfi = stream(&identity(3));
    let mut run = txrx.unreliable_unordered_request(hbfi, 0, 3);
    let asked = drive(&mut txrx, &mut run, vec![Some(2), None, Some(0), Some(9), Some(1)]);
    assert_eq!(asked, vec![0, 1, 2, 3]);
    assert!(run.is_done());
    assert_eq!(run.offsets, vec![2, 0, 9]);
    assert_eq!(run.finish(), Ok(vec![chunk(2), chunk(0), chunk(9)]));
}

#[test]
fn reliable_unordered_asks_again_after_a_timeout() {
    let mut txrx = endpoint();
    let hbfi = stream(&identity(3));
    let mut run = txrx.reliable_unordered_request(hbfi, 0, 1);
    let asked = drive(&mut txrx, &mut run, vec![None, None, Some(5), Some(0)]);
    assert_eq!(asked, vec![0, 0, 0, 1]);
    assert!(run.is_done());
    assert_eq!(run.offsets, vec![5, 0]);
}

#[test]
fn unreliable_sequenced_drops_the_old_and_jumps_to_the_new() {
    let mut txrx = endpoint();
    let hbfi = stream(&identity(3));
    let mut run = txrx.unreliable_sequenced_request(hbfi, 2, 9);
    let asked = drive(&mut txrx, &mut run, vec![Some(2), Some(5), Some(4), None, Some(8), Some(9)]);
    assert_eq!(asked, vec![2, 3, 6, 7, 8, 9]);
    assert!(run.is_done());
    assert_eq!(run.offsets, vec![2, 5, 8, 9]);
    assert_eq!(run.finish(), Ok(vec![chunk(2), chunk(5), chunk(8), chunk(9)]));
}

#[test]
fn reliable_sequenced_asks_again_for_what_did_not_come() {
    let mut txrx = endpoint();
    let hbfi = stream(&identity(3));
    let mut run = txrx.reliable_sequenced_request(hbfi, 2, 6);
    let asked = drive(&mut txrx, &mut run, vec![Some(1), None, Some(4), Some(3), Some(6)]);
    assert_eq!(asked, vec![2, 2, 2, 5, 5]);
    assert!(run.is_done());
    assert_eq!(run.offsets, vec![4, 6]);
}

#[test]
fn a_sequenced_run_jumps_to_a_response_beyond_its_last_offset() {
    let mut txrx = endpoint();
    let hbfi = stream(&identity(3));
    let mut run = txrx.unreliable_sequenced_request(hbfi, 2, 9);
    assert!(run.accepts(10));
    assert!(!run.accepts(1));
    let asked = drive(&mut txrx, &mut run, vec![Some(2), Some(12), Some(13)]);
    assert_eq!(asked, vec![2, 3]);
    assert!(run.is_done());
    assert_eq!(run.counter, 12);
    assert_eq!(run.offsets, vec![2, 12]);
    assert_eq!(run.finish(), Ok(vec![chunk(2), chunk(12)]));

    let mut run = txrx.reliable_sequenced_request(hbfi, 2, 6);
    let asked = drive(&mut txrx, &mut run, vec![Some(1), Some(7), Some(6)]);
    assert_eq!(asked, vec![2, 2]);
    assert!(run.is_done());
    assert_eq!(run.offsets, vec![7]);
}

#[test]
fn a_run_over_nothing_is_over_at_once() {
    let mut txrx = endpoint();
    let hbfi = stream(&identity(3));
    let run = Run::begin(Discipline::ReliableOrdered, hbfi, 5, 4);
    assert!(run.is_done());
    assert!(txrx.next_request(&run, 0).is_none());
    assert_eq!(run.finish(), Ok(vec![]));
}

#[test]
fn a_run_to_the_last_offset_there_is_comes_to_an_end() {
    let mut txrx = endpoint();
    let hbfi = stream(&identity(3));
    let mut run = txrx.reliable_ordered_request(hbfi, u64::MAX - 1, u64::MAX);
    let asked = drive(&mut txrx, &mut run, vec![Some(u64::MAX - 1), Some(u64::MAX), Some(0)]);
    assert_eq!(asked, vec![u64::MAX - 1, u64::MAX]);
    assert!(run.is_done());
    assert_eq!(run.offsets, vec![u64::MAX - 1, u64::MAX]);
}

#[test]
fn a_request_that_arrives_counts_as_a_miss() {
    let mut txrx = endpoint();
    let hbfi = stream(&identity(3));
    let mut run = txrx.unreliable_unordered_request(hbfi, 0, 1);
    let request = txrx.next_request(&run, 0).unwrap();
    txrx.settle(&mut run, &request, Event::Received(request), 5);
    assert_eq!(run.counter, 1);
    assert!(run.chunks.is_empty());
    let mut run = txrx.reliable_unordered_request(hbfi, 0, 1);
    let request = txrx.next_request(&run, 0).unwrap();
    txrx.settle(&mut run, &request, Event::Received(request), 5);
    assert_eq!(run.counter, 0);
}

#[test]
fn a_response_that_does_not_verify_ends_the_run() {
    let mut txrx = endpoint();
    let producer = identity(3);
    let hbfi = stream(&producer);
    let mut run = txrx.reliable_ordered_request(hbfi, 0, 3);
    let request = txrx.next_request(&run, 0).unwrap();
    let good = NarrowWaistPacket::response(&producer, hbfi, &chunk(0), 0, 0).unwrap();
    let forged = match good {
        NarrowWaistPacket::Response { hbfi, nonce, offset, total, len, data, mut signature } => {
            signature[0] ^= 1;
            NarrowWaistPacket::Response { hbfi, nonce, offset, total, len, data, signature }
        }
        NarrowWaistPacket::Request { .. } => unreachable!(),
    };
    let ilp = InterLinkPacket::new(request.link_id(), LinkPacket::new(ReplyTo::Mpsc, forged));
    txrx.settle(&mut run, &request, Event::Received(ilp), 5);
    assert!(run.is_done());
    assert!(txrx.next_request(&run, 6).is_none());
    assert_eq!(run.finish(), Err(PacketError::AuthenticationFailed));
}

#[test]
fn a_sealed_stream_is_read_with_the_endpoints_key() {
    let producer = identity(3);
    let mut txrx = endpoint();
    let hbfi = HBFI::new(Some(identity(2).public_id()), producer.public_id(), "a", "b", "c", "d");
    let mut run = txrx.reliable_ordered_request(hbfi, 0, 0);
    let request = txrx.next_request(&run, 0).unwrap();
    assert_eq!(request.link_id(), txrx.link_id);
    assert_eq!(request.link_packet().reply_to(), ReplyTo::Mpsc);
    let nw = request.narrow_waist().transmute(&producer, &vec![42; 1022], 0, 0).unwrap();
    let ilp = InterLinkPacket::new(request.link_id(), LinkPacket::new(ReplyTo::Mpsc, nw));
    txrx.settle(&mut run, &request, Event::Received(ilp), 5);
    assert_eq!(run.finish(), Ok(vec![vec![42; 1022]]));

    let mut stranger = TxRx::new(LinkId::new(1, identity(1), None, ReplyTo::Mpsc), identity(7));
    let mut run = stranger.reliable_ordered_request(hbfi, 0, 0);
    let request = stranger.next_request(&run, 0).unwrap();
    let nw = request.narrow_waist().transmute(&producer, &vec![42; 10], 0, 0).unwrap();
    let ilp = InterLinkPacket::new(request.link_id(), LinkPacket::new(ReplyTo::Mpsc, nw));
    stranger.settle(&mut run, &request, Event::Received(ilp), 5);
    assert_eq!(run.finish(), Err(PacketError::WrongKey));
}

#[test]
fn respond_wraps_the_payload_for_the_link() {
    let me = identity(2);
    let txrx = endpoint();
    let hbfi = stream(&me).offset(4);
    let ilp = txrx.respond(hbfi, &vec![1, 2, 3]).unwrap();
    assert_eq!(ilp.link_id(), txrx.link_id);
    assert_eq!(ilp.narrow_waist().hbfi(), hbfi);
    assert!(ilp.narrow_waist().verify());
    assert_eq!(ilp.narrow_waist().data(None), Ok(vec![1, 2, 3]));
    match ilp.narrow_waist() {
        NarrowWaistPacket::Response { offset, total, .. } => {
            assert_eq!((offset, total), (0, 0));
        }
        NarrowWaistPacket::Request { .. } => panic!("a response was asked for"),
    }
    assert_eq!(txrx.respond(hbfi, &vec![0; 1025]), Err(PacketError::MalformedPacket));
    assert_eq!(txrx.respond(stream(&identity(5)), &vec![0; 10]), Err(PacketError::WrongKey));
}

fn request_with(n: u64) -> NarrowWaistPacket {
    let mut nonce = [0u8; 12];
    nonce[..8].copy_from_slice(&n.to_le_bytes());
    NarrowWaistPacket::request_with_nonce(stream(&identity(3)), nonce)
}

#[test]
fn the_wait_starts_at_a_second_and_doubles_on_a_miss() {
    let mut cc = CongestionControl::new();
    let nw = request_with(1);
    assert_eq!(cc.wait_for(&nw), None);
    cc.start_timer(&nw, 100);
    assert_eq!(cc.len(), 1);
    assert_eq!(cc.wait_for(&nw), Some(INITIAL_TIMEOUT));
    assert_eq!(INITIAL_TIMEOUT, 1_000_000_000);
    cc.timed_out(&nw);
    assert_eq!(cc.wait_for(&nw), Some(2_000_000_000));
    cc.timed_out(&nw);
    cc.timed_out(&nw);
    assert_eq!(cc.wait_for(&nw), Some(8_000_000_000));
    assert_eq!(cc.len(), 1);
}

#[test]
fn the_wait_is_reset_to_the_round_trip_time_on_a_hit() {
    let mut cc = CongestionControl::new();
    let nw = request_with(1);
    cc.start_timer(&nw, 100);
    cc.timed_out(&nw);
    cc.received(&nw, 350);
    assert_eq!(cc.wait_for(&nw), Some(250));
    cc.start_timer(&nw, 1_000);
    assert_eq!(cc.wait_for(&nw), Some(250));
    cc.received(&nw, 1_040);
    assert_eq!(cc.wait_for(&nw), Some(40));
    cc.received(&nw, 900);
    assert_eq!(cc.wait_for(&nw), Some(0));
}

#[test]
fn the_wait_stops_doubling_at_the_largest_wait() {
    let mut cc = CongestionControl::new();
    let nw = request_with(1);
    cc.start_timer(&nw, 0);
    for _ in 0..70 {
        cc.timed_out(&nw);
    }
    assert_eq!(cc.wait_for(&nw), Some(u64::MAX));
}

#[test]
fn the_table_forgets_the_request_used_least_recently() {
    let mut cc = CongestionControl::new();
    assert_eq!(CONGESTION_CONTROL_SIZE, 32);
    for n in 0..32u64 {
        cc.start_timer(&request_with(n), n);
    }
    assert_eq!(cc.len(), 32);
    assert_eq!(cc.wait_for(&request_with(0)), Some(INITIAL_TIMEOUT));
    cc.start_timer(&request_with(100), 100);
    assert_eq!(cc.len(), 32);
    assert_eq!(cc.wait_for(&request_with(1)), None);
    assert_eq!(cc.wait_for(&request_with(0)), Some(INITIAL_TIMEOUT));
    assert_eq!(cc.wait_for(&request_with(100)), Some(INITIAL_TIMEOUT));
    cc.timed_out(&request_with(1));
    cc.received(&request_with(1), 5);
    assert_eq!(cc.wait_for(&request_with(1)), None);
    assert_eq!(cc.len(), 32);
}

#[test]
fn the_timer_of_each_request_is_its_own() {
    let mut cc = CongestionControl::new();
    let a = request_with(1);
    let b = request_with(2);
    cc.start_timer(&a, 10);
    cc.start_timer(&b, 20);
    cc.timed_out(&a);
    cc.received(&b, 25);
    assert_eq!(cc.wait_for(&a), Some(2_000_000_000));
    assert_eq!(cc.wait_for(&b), Some(5));
}

#[test]
fn nonces_that_differ_in_their_last_bytes_have_lines_of_their_own() {
    let mut cc = CongestionControl::new();
    let mut first = [7u8; 12];
    let mut second = [7u8; 12];
    first[11] = 1;
    second[11] = 2;
    let a = NarrowWaistPacket::request_with_nonce(stream(&identity(3)), first);
    let b = NarrowWaistPacket::request_with_nonce(stream(&identity(3)), second);
    cc.start_timer(&a, 10);
    cc.timed_out(&a);
    assert_eq!(cc.wait_for(&a), Some(2 * INITIAL_TIMEOUT));
    assert_eq!(cc.wait_for(&b), None);
    cc.start_timer(&b, 20);
    assert_eq!(cc.len(), 2);
    assert_eq!(cc.wait_for(&b), Some(INITIAL_TIMEOUT));
    assert_eq!(cc.wait_for(&a), Some(2 * INITIAL_TIMEOUT));
    cc.start_timer(&a, 30);
    assert_eq!(cc.len(), 2);
    assert_eq!(cc.wait_for(&a), Some(2 * INITIAL_TIMEOUT));
}
