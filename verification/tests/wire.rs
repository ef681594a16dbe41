use copernica::error::PacketError;
use copernica::hbfi::{bloom_filter_index, HBFIOnlyKeys, HBFI};
use copernica::identity::{PrivateIdentity, PublicIdentity};
use copernica::link::{InterLinkPacket, LinkId, LinkPacket, ReplyTo};
use copernica::narrow_waist::{NarrowWaistPacket, ResponseData};
use sha3::Digest;

fn identity(n: u8) -> PrivateIdentity {
    PrivateIdentity::from_seed([n; 32])
}

fn lanes_of(name: &str) -> [u16; 6] {
    let digest = sha3::Sha3_512::digest(name.as_bytes());
    let mut lanes = [0u16; 6];
    for i in 0..6 {
        lanes[i] = u16::from_le_bytes([digest[2 * i], digest[2 * i + 1]]);
    }
    lanes
}

#[test]
fn slots_are_the_first_lanes_of_the_digest() {
    assert_eq!(bloom_filter_index("app"), lanes_of("app"));
    assert_eq!(
        bloom_filter_index("abc"),
        [0x51b7, 0x0b85, 0x571a, 0x8a16, 0x9356, 0x92cd]
    );
    assert_ne!(bloom_filter_index("app"), bloom_filter_index("m0d"));
}

#[test]
fn a_new_index_hashes_its_four_names() {
    let pid = identity(1).public_id();
    let h = HBFI::new(None, pid, "app", "m0d", "fun", "arg");
    assert_eq!(h.request_pid, None);
    assert_eq!(h.response_pid, pid);
    assert_eq!(h.app, lanes_of("app"));
    assert_eq!(h.m0d, lanes_of("m0d"));
    assert_eq!(h.fun, lanes_of("fun"));
    assert_eq!(h.arg, lanes_of("arg"));
    assert_eq!(h.ost, 0);
}

#[test]
fn the_offset_leaves_the_slots_alone() {
    let h = HBFI::new(Some(identity(2).public_id()), identity(1).public_id(), "a", "b", "c", "d");
    let moved = h.offset(77);
    assert_eq!(moved.ost, 77);
    assert_eq!(moved.offset(0), h);
    assert!(HBFIOnlyKeys(moved).same(&HBFIOnlyKeys(h)));
    assert!(moved.fingerprint_keys_only().same(&h.fingerprint_keys_only()));
    assert!(!moved.same(&h));
    assert!(!HBFIOnlyKeys(h).same(&HBFIOnlyKeys(h.cleartext_repr())));
    assert_eq!(moved.sdr_index(), h.sdr_index());
}

#[test]
fn the_cleartext_form_names_no_requester() {
    let reader = identity(2).public_id();
    let h = HBFI::new(Some(reader), identity(1).public_id(), "a", "b", "c", "d");
    let clear = h.cleartext_repr();
    assert_eq!(clear.request_pid, None);
    assert_eq!(clear.encrypt_for(reader), h);
    assert_eq!(clear.app, h.app);
}

#[test]
fn the_bit_indices_of_an_index_are_its_lanes_modulo_2048() {
    let h = HBFI::new(None, identity(1).public_id(), "app", "m0d", "fun", "arg");
    let rows = h.sdr_index();
    assert_eq!(rows.len(), 4);
    let expect: Vec<u16> = lanes_of("fun").iter().map(|l| l % 2048).collect();
    assert_eq!(rows[2], expect);
}

#[test]
fn an_index_is_written_in_120_or_184_bytes() {
    let producer = identity(1).public_id();
    let reader = identity(2).public_id();
    let clear = HBFI::new(None, producer, "app", "m0d", "fun", "arg").offset(0x0807060504030201);
    let bytes = clear.to_bytes();
    assert_eq!(bytes.len(), 120);
    assert_eq!(&bytes[0..2], &clear.app[0].to_le_bytes()[..]);
    assert_eq!(&bytes[12..14], &clear.m0d[0].to_le_bytes()[..]);
    assert_eq!(&bytes[48..112], &producer.bytes[..]);
    assert_eq!(&bytes[112..120], &[1, 2, 3, 4, 5, 6, 7, 8][..]);
    assert_eq!(HBFI::from_bytes(&bytes), Some(clear));

    let sealed = clear.encrypt_for(reader);
    let bytes = sealed.to_bytes();
    assert_eq!(bytes.len(), 184);
    assert_eq!(&bytes[48..112], &reader.bytes[..]);
    assert_eq!(&bytes[112..176], &producer.bytes[..]);
    assert_eq!(HBFI::from_bytes(&bytes), Some(sealed));

    assert_eq!(HBFI::from_bytes(&bytes[..183]), None);
    assert_eq!(HBFI::from_bytes(&[]), None);
}

#[test]
fn public_identities_are_64_bytes_derived_from_the_seed() {
    let a = identity(1);
    assert_eq!(a.public_id(), PrivateIdentity::from_seed([1; 32]).public_id());
    assert_ne!(a.public_id(), identity(2).public_id());
    assert_ne!(&a.public_id().bytes[..32], &a.seed[..]);
    assert!(a.public_id().same(&PublicIdentity::from_bytes(a.public_id().bytes)));
    assert!(!a.public_id().same(&identity(2).public_id()));
}

#[test]
fn a_signature_verifies_for_its_message_and_signer_only() {
    let a = identity(1);
    let signature = a.sign(b"message");
    assert!(a.public_id().verify(b"message", &signature));
    assert!(!a.public_id().verify(b"massage", &signature));
    assert!(!identity(2).public_id().verify(b"message", &signature));
    let mut forged = signature;
    forged[5] ^= 4;
    assert!(!a.public_id().verify(b"message", &forged));
    assert_eq!(signature, a.sign(b"message"));
    assert_ne!(signature, a.sign(b"other"));
}

#[test]
fn both_ends_share_one_secret() {
    let a = identity(1);
    let b = identity(2);
    let c = identity(3);
    assert_eq!(a.shared_secret(&b.public_id()), b.shared_secret(&a.public_id()));
    assert_ne!(a.shared_secret(&b.public_id()), a.shared_secret(&c.public_id()));
    assert_ne!(&a.shared_secret(&b.public_id())[..], &b.public_id().bytes[..32]);
}

#[test]
fn a_request_is_written_in_133_or_197_bytes() {
    let h = HBFI::new(None, identity(1).public_id(), "app", "m0d", "fun", "arg").offset(3);
    let nw = NarrowWaistPacket::request_with_nonce(h, [9, 8, 7, 6, 5, 4, 3, 2, 1, 0, 1, 2]);
    let bytes = nw.to_bytes();
    assert_eq!(bytes.len(), 133);
    assert_eq!(bytes[0], 0);
    assert_eq!(&bytes[1..121], &h.to_bytes()[..]);
    assert_eq!(&bytes[121..], &[9, 8, 7, 6, 5, 4, 3, 2, 1, 0, 1, 2][..]);
    assert_eq!(NarrowWaistPacket::from_bytes(&bytes), Some(nw));

    let sealed = NarrowWaistPacket::request(h.encrypt_for(identity(2).public_id()));
    let bytes = sealed.to_bytes();
    assert_eq!(bytes.len(), 197);
    assert_eq!(NarrowWaistPacket::from_bytes(&bytes), Some(sealed));
    assert_eq!(sealed.hbfi(), h.encrypt_for(identity(2).public_id()));
}

#[test]
fn requests_get_fresh_nonces() {
    let h = HBFI::new(None, identity(1).public_id(), "app", "m0d", "fun", "arg");
    let a = NarrowWaistPacket::request(h);
    let b = NarrowWaistPacket::request(h);
    assert_ne!(a.nonce(), b.nonce());
    assert_eq!(a.hbfi(), b.hbfi());
}

#[test]
fn a_response_is_written_in_1237_or_1317_bytes() {
    let producer = identity(1);
    let reader = identity(2);
    let h = HBFI::new(None, producer.public_id(), "app", "m0d", "fun", "arg");
    let payload = vec![0xabu8; 600];
    let nw = NarrowWaistPacket::response_with_nonce(&producer, h, &payload, 5, 6, [1; 12]).unwrap();
    let bytes = nw.to_bytes();
    assert_eq!(bytes.len(), 1237);
    assert_eq!(bytes[0], 1);
    assert_eq!(&bytes[121..133], &[1; 12][..]);
    assert_eq!(&bytes[133..141], &5u64.to_le_bytes()[..]);
    assert_eq!(&bytes[141..149], &6u64.to_le_bytes()[..]);
    assert_eq!(&bytes[149..151], &600u16.to_le_bytes()[..]);
    assert_eq!(&bytes[151..751], &payload[..]);
    assert_eq!(&bytes[751..1173], &[0u8; 422][..]);
    assert_eq!(NarrowWaistPacket::from_bytes(&bytes), Some(nw));
    assert!(nw.is_wf());
    assert!(nw.verify());

    let sealed = NarrowWaistPacket::response_with_nonce(
        &producer,
        h.encrypt_for(reader.public_id()),
        &payload,
        5,
        6,
        [1; 12],
    )
    .unwrap();
    let bytes = sealed.to_bytes();
    assert_eq!(bytes.len(), 1317);
    assert_ne!(&bytes[215..815], &payload[..]);
    assert_eq!(NarrowWaistPacket::from_bytes(&bytes), Some(sealed));
    assert!(sealed.verify());
    assert_eq!(sealed.data(Some(reader)), Ok(payload));
}

#[test]
fn what_is_no_packet_is_not_read() {
    let producer = identity(1);
    let h = HBFI::new(None, producer.public_id(), "app", "m0d", "fun", "arg");
    let nw = NarrowWaistPacket::response(&producer, h, &vec![1, 2, 3], 0, 1).unwrap();
    let bytes = nw.to_bytes();
    assert_eq!(NarrowWaistPacket::from_bytes(&bytes[1..]), None);
    assert_eq!(NarrowWaistPacket::from_bytes(&[]), None);
    let mut wrong_tag = bytes.clone();
    wrong_tag[0] = 0;
    assert_eq!(NarrowWaistPacket::from_bytes(&wrong_tag), None);
    let mut too_long = bytes.clone();
    too_long[149] = 255;
    too_long[150] = 3;
    assert_eq!(NarrowWaistPacket::from_bytes(&too_long), None);
    let mut request = NarrowWaistPacket::request(h).to_bytes();
    request[0] = 1;
    assert_eq!(NarrowWaistPacket::from_bytes(&request), None);
}

#[test]
fn the_payload_comes_out_for_the_reader_it_is_meant_for_only() {
    let producer = identity(1);
    let reader = identity(2);
    let stranger = identity(3);
    let payload = vec![42u8; 1022];
    let clear = HBFI::new(None, producer.public_id(), "app", "m0d", "fun", "arg");
    let sealed = clear.encrypt_for(reader.public_id());

    let nw = NarrowWaistPacket::response(&producer, clear, &payload, 0, 1).unwrap();
    assert_eq!(nw.data(None), Ok(payload.clone()));
    assert_eq!(nw.data(Some(reader)), Err(PacketError::WrongKey));

    let nw = NarrowWaistPacket::response(&producer, sealed, &payload, 0, 1).unwrap();
    assert_eq!(nw.data(Some(reader)), Ok(payload.clone()));
    assert_eq!(nw.data(Some(stranger)), Err(PacketError::WrongKey));
    assert_eq!(nw.data(Some(producer)), Err(PacketError::WrongKey));
    assert_eq!(nw.data(None), Err(PacketError::WrongKey));
}

#[test]
fn an_empty_payload_and_a_full_one() {
    let producer = identity(1);
    let h = HBFI::new(None, producer.public_id(), "app", "m0d", "fun", "arg");
    let nw = NarrowWaistPacket::response(&producer, h, &vec![], 0, 1).unwrap();
    assert_eq!(nw.data(None), Ok(vec![]));
    let nw = NarrowWaistPacket::response(&producer, h, &vec![1; 1022], 0, 1).unwrap();
    assert_eq!(nw.data(None), Ok(vec![1; 1022]));
    assert_eq!(
        NarrowWaistPacket::response(&producer, h, &vec![1; 1023], 0, 1),
        Err(PacketError::MalformedPacket)
    );
}

#[test]
fn only_the_producer_that_the_index_names_can_respond() {
    let producer = identity(1);
    let h = HBFI::new(None, producer.public_id(), "app", "m0d", "fun", "arg");
    assert_eq!(
        NarrowWaistPacket::response(&identity(2), h, &vec![1], 0, 1),
        Err(PacketError::WrongKey)
    );
    let request = NarrowWaistPacket::request(h);
    assert_eq!(request.transmute(&identity(2), &vec![1], 0, 1), Err(PacketError::WrongKey));
    let response = request.transmute(&producer, &vec![1], 3, 4).unwrap();
    assert_eq!(response.nonce(), request.nonce());
    assert_eq!(response.hbfi(), request.hbfi());
    assert_eq!(response.transmute(&producer, &vec![1], 0, 1), Err(PacketError::MalformedPacket));
    assert_eq!(request.data(None), Err(PacketError::MalformedPacket));
    assert!(!request.verify());
}

#[test]
fn a_response_that_was_tampered_with_is_not_authentic() {
    let producer = identity(1);
    let reader = identity(2);
    let h = HBFI::new(Some(reader.public_id()), producer.public_id(), "app", "m0d", "fun", "arg");
    let nw = NarrowWaistPacket::response(&producer, h, &vec![7; 100], 1, 2).unwrap();
    match nw {
        NarrowWaistPacket::Response { hbfi, nonce, offset, total, len, data, signature } => {
            let moved = NarrowWaistPacket::Response {
                hbfi,
                nonce,
                offset: offset + 1,
                total,
                len,
                data,
                signature,
            };
            assert!(!moved.verify());
            assert_eq!(moved.data(Some(reader)), Err(PacketError::AuthenticationFailed));
            let flipped = match data {
                ResponseData::CypherText { mut data, tag } => {
                    data[0] ^= 1;
                    ResponseData::CypherText { data, tag }
                }
                ResponseData::ClearText { .. } => panic!("the response is sealed"),
            };
            let flipped =
                NarrowWaistPacket::Response { hbfi, nonce, offset, total, len, data: flipped, signature };
            assert_eq!(flipped.data(Some(reader)), Err(PacketError::AuthenticationFailed));
            let unsealed = NarrowWaistPacket::Response {
                hbfi: hbfi.cleartext_repr(),
                nonce,
                offset,
                total,
                len,
                data,
                signature,
            };
            assert!(!unsealed.is_wf());
            assert_eq!(unsealed.data(None), Err(PacketError::MalformedPacket));
        }
        NarrowWaistPacket::Request { .. } => panic!("a response was asked for"),
    }
}

#[test]
fn a_response_resealed_by_a_forger_does_not_open() {
    let producer = identity(1);
    let reader = identity(2);
    let h = HBFI::new(Some(reader.public_id()), producer.public_id(), "app", "m0d", "fun", "arg");
    let nw = NarrowWaistPacket::response_with_nonce(&producer, h, &vec![7; 100], 1, 2, [3; 12]).unwrap();
    let other = NarrowWaistPacket::response_with_nonce(&producer, h, &vec![7; 100], 1, 2, [4; 12]).unwrap();
    match (nw, other) {
        (
            NarrowWaistPacket::Response { hbfi, offset, total, len, data, .. },
            NarrowWaistPacket::Response { nonce, .. },
        ) => {
            let mut message = hbfi.to_bytes();
            message.extend_from_slice(&nonce);
            message.extend_from_slice(&offset.to_le_bytes());
            message.extend_from_slice(&total.to_le_bytes());
            message.extend_from_slice(&len.to_le_bytes());
            match data {
                ResponseData::CypherText { data, tag } => {
                    message.extend_from_slice(&data);
                    message.extend_from_slice(&tag);
                }
                ResponseData::ClearText { .. } => panic!("the response is sealed"),
            }
            let signature = producer.sign(&message);
            let spliced = NarrowWaistPacket::Response { hbfi, nonce, offset, total, len, data, signature };
            assert!(spliced.verify());
            assert_eq!(spliced.data(Some(reader)), Err(PacketError::AuthenticationFailed));
        }
        _ => panic!("two responses were asked for"),
    }
}

#[test]
fn sealing_after_the_fact() {
    let producer = identity(1);
    let reader = identity(2);
    let h = HBFI::new(None, producer.public_id(), "app", "m0d", "fun", "arg").offset(9);
    let clear = NarrowWaistPacket::response(&producer, h, &vec![5; 10], 2, 3).unwrap();
    let sealed = clear.encrypt_for(&producer, reader.public_id()).unwrap();
    assert_eq!(sealed.hbfi(), h.encrypt_for(reader.public_id()));
    assert_eq!(sealed.nonce(), clear.nonce());
    assert_eq!(sealed.data(Some(reader)), Ok(vec![5; 10]));
    assert_eq!(sealed.data(None), Err(PacketError::WrongKey));
    assert_eq!(clear.encrypt_for(&identity(4), reader.public_id()), Err(PacketError::WrongKey));
    assert_eq!(sealed.encrypt_for(&producer, reader.public_id()), Err(PacketError::WrongKey));
    let request = NarrowWaistPacket::request(h);
    assert_eq!(
        request.encrypt_for(&producer, reader.public_id()),
        Err(PacketError::MalformedPacket)
    );
}

#[test]
fn reply_hints_are_written_in_seven_nineteen_five_or_one_byte() {
    let h = HBFI::new(None, identity(1).public_id(), "app", "m0d", "fun", "arg");
    let nw = NarrowWaistPacket::request(h);
    let udp = LinkPacket::new(ReplyTo::UdpIp { ip: [10, 0, 0, 1], port: 0x1234 }, nw);
    let bytes = udp.to_bytes();
    assert_eq!(bytes.len(), 140);
    assert_eq!(&bytes[..7], &[0, 10, 0, 0, 1, 0x34, 0x12][..]);
    assert_eq!(&bytes[7..], &nw.to_bytes()[..]);
    assert_eq!(LinkPacket::from_bytes(&bytes), Some(udp));

    let mut ip6 = [0u8; 16];
    ip6[0] = 0xfe;
    ip6[1] = 0x80;
    ip6[15] = 1;
    let udp6 = LinkPacket::new(ReplyTo::UdpIp6 { ip6, port: 0x1234 }, nw);
    let bytes = udp6.to_bytes();
    assert_eq!(bytes.len(), 152);
    assert_eq!(bytes[0], 0);
    assert_eq!(&bytes[1..17], &ip6[..]);
    assert_eq!(&bytes[17..19], &[0x34, 0x12][..]);
    assert_eq!(&bytes[19..], &nw.to_bytes()[..]);
    assert_eq!(LinkPacket::from_bytes(&bytes), Some(udp6));
    assert_eq!(LinkPacket::from_bytes(&bytes[..151]), None);

    let rf = LinkPacket::new(ReplyTo::Rf(0x01020304), nw);
    let bytes = rf.to_bytes();
    assert_eq!(bytes.len(), 138);
    assert_eq!(&bytes[..5], &[1, 4, 3, 2, 1][..]);
    assert_eq!(LinkPacket::from_bytes(&bytes), Some(rf));

    let mpsc = LinkPacket::new(ReplyTo::Mpsc, nw);
    let bytes = mpsc.to_bytes();
    assert_eq!(bytes.len(), 134);
    assert_eq!(bytes[0], 2);
    assert_eq!(LinkPacket::from_bytes(&bytes), Some(mpsc));
    assert_eq!(mpsc.narrow_waist(), nw);
    assert_eq!(mpsc.reply_to(), ReplyTo::Mpsc);

    let mut unknown = bytes.clone();
    unknown[0] = 3;
    assert_eq!(LinkPacket::from_bytes(&unknown), None);
    assert_eq!(LinkPacket::from_bytes(&[0, 1, 2]), None);
    assert_eq!(LinkPacket::from_bytes(&[]), None);
}

#[test]
fn frames_name_their_sender() {
    let tx = identity(1);
    let rx = identity(2);
    let h = HBFI::new(None, identity(3).public_id(), "app", "m0d", "fun", "arg");
    let lp = LinkPacket::new(ReplyTo::Mpsc, NarrowWaistPacket::request(h));
    let clear = lp.as_bytes(&LinkId::new(1, tx, None, ReplyTo::Mpsc));
    assert_eq!(clear.len(), 65 + 134);
    assert_eq!(clear[0], 0);
    assert_eq!(&clear[1..65], &tx.public_id().bytes[..]);
    assert_eq!(&clear[65..], &lp.to_bytes()[..]);
    let receiver = LinkId::new(2, rx, None, ReplyTo::Mpsc);
    assert_eq!(LinkPacket::from_frame(&clear, &receiver), Ok((tx.public_id(), lp)));

    let sender = LinkId::new(1, tx, None, ReplyTo::Mpsc).remote(rx.public_id());
    assert_eq!(sender.link_pid(), tx.public_id());
    assert_eq!(sender.lookup_id(), 1);
    assert_eq!(sender.reply_to(), ReplyTo::Mpsc);
    let sealed = lp.as_bytes_with_nonce(&sender, [5; 8]);
    assert_eq!(sealed.len(), 65 + 24 + 134);
    assert_eq!(sealed[0], 1);
    assert_eq!(&sealed[1..65], &tx.public_id().bytes[..]);
    assert_eq!(&sealed[65..73], &[5; 8][..]);
    assert_ne!(&sealed[73..207], &lp.to_bytes()[..]);
    assert_eq!(LinkPacket::from_frame(&sealed, &receiver), Ok((tx.public_id(), lp)));

    let mut tampered = sealed.clone();
    tampered[100] ^= 1;
    assert_eq!(LinkPacket::from_frame(&tampered, &receiver), Err(PacketError::AuthenticationFailed));
    assert_eq!(LinkPacket::from_frame(&sealed[..80], &receiver), Err(PacketError::MalformedPacket));
    assert_eq!(LinkPacket::from_frame(&clear[..64], &receiver), Err(PacketError::MalformedPacket));
    assert_eq!(LinkPacket::from_frame(&clear[..100], &receiver), Err(PacketError::MalformedPacket));
    let mut unknown = clear.clone();
    unknown[0] = 2;
    assert_eq!(LinkPacket::from_frame(&unknown, &receiver), Err(PacketError::MalformedPacket));
}

#[test]
fn inter_link_packets_carry_their_link() {
    let a = LinkId::listen(identity(1), None, ReplyTo::Rf(1));
    let b = LinkId::listen(identity(2), Some(identity(1).public_id()), ReplyTo::Rf(2));
    let h = HBFI::new(None, identity(3).public_id(), "app", "m0d", "fun", "arg");
    let lp = LinkPacket::new(ReplyTo::Rf(1), NarrowWaistPacket::request(h));
    let ilp = InterLinkPacket::new(a, lp);
    assert_eq!(ilp.link_id(), a);
    assert_eq!(ilp.link_packet(), lp);
    assert_eq!(ilp.narrow_waist(), lp.narrow_waist());
    let moved = ilp.change_destination(b);
    assert_eq!(moved.link_id(), b);
    assert_eq!(moved.link_packet(), lp);
    assert_eq!(b.remote_link_pid, Some(identity(1).public_id()));
}

#[test]
fn errors_describe_themselves() {
    assert_eq!(PacketError::MalformedPacket.message(), "malformed packet");
    assert_eq!(PacketError::PacketCorrupt.message(), "packet corrupted beyond recovery");
    assert_eq!(PacketError::AuthenticationFailed.message(), "authentication failed");
    assert_eq!(PacketError::WrongKey.message(), "wrong key");
}
