use copernica::packets::{generate_sdr_index, mk_response, request, response, Data, Packet};

#[test]
fn request_carries_the_index_of_its_name() {
    let name = "interested/in/world/affairs".to_string();
    let packet = request(name.clone());
    match packet {
        Packet::Request { sdri } => {
            assert_eq!(sdri, generate_sdr_index(name));
            assert_eq!(sdri.len(), 4);
            for row in &sdri {
                assert_eq!(row.len(), 8);
                for index in row {
                    assert!(*index < 2048);
                }
            }
        }
        Packet::Response { .. } => panic!("a request was asked for"),
    }
}

#[test]
fn index_is_stable_and_follows_the_components() {
    let whole = generate_sdr_index("a/b".to_string());
    let first = generate_sdr_index("a".to_string());
    let second = generate_sdr_index("b".to_string());
    assert_eq!(whole.len(), 2);
    assert_eq!(whole[0], first[0]);
    assert_eq!(whole[1], second[0]);
    assert_ne!(first, second);
    assert_eq!(generate_sdr_index("".to_string()).len(), 1);
    assert_eq!(generate_sdr_index("/".to_string()).len(), 2);
}

#[test]
fn index_of_abc_matches_the_digest() {
    // SHA3-512("abc") starts b7 51 85 0b 1a 57 16 8a 56 93 cd 92 4b 6b 09 6e.
    let row = generate_sdr_index("abc".to_string());
    let expected: Vec<u16> = vec![
        0x51b7 % 2048,
        0x0b85 % 2048,
        0x571a % 2048,
        0x8a16 % 2048,
        0x9356 % 2048,
        0x92cd % 2048,
        0x6b4b % 2048,
        0x6e09 % 2048,
    ];
    assert_eq!(row, vec![expected]);
}

#[test]
fn response_keeps_its_data() {
    let data = Data::Content { bytes: vec![1, 2, 3] };
    let packet = response("hello".to_string(), data.clone());
    assert_eq!(
        packet,
        Packet::Response { sdri: generate_sdr_index("hello".to_string()), data }
    );
}

#[test]
fn small_payload_is_one_content_response() {
    let out = mk_response("hello".to_string(), vec![0; 1024]);
    assert_eq!(out.len(), 1);
    assert_eq!(
        out.get("hello"),
        Some(&response("hello".to_string(), Data::Content { bytes: vec![0; 1024] }))
    );
}

#[test]
fn empty_payload_is_one_empty_content_response() {
    let out = mk_response("hello".to_string(), vec![]);
    assert_eq!(out.len(), 1);
    assert_eq!(
        out.get("hello"),
        Some(&response("hello".to_string(), Data::Content { bytes: vec![] }))
    );
}

#[test]
fn large_payload_is_a_manifest_and_chunks() {
    let mut data: Vec<u8> = Vec::new();
    for i in 0..2500usize {
        data.push((i % 251) as u8);
    }
    let out = mk_response("hello".to_string(), data.clone());
    assert_eq!(out.len(), 4);
    assert_eq!(
        out.get("hello"),
        Some(&response("hello".to_string(), Data::Manifest { chunk_count: 2 }))
    );
    assert_eq!(
        out.get("hello-0"),
        Some(&response("hello-0".to_string(), Data::Content { bytes: data[0..1024].to_vec() }))
    );
    assert_eq!(
        out.get("hello-1"),
        Some(&response("hello-1".to_string(), Data::Content { bytes: data[1024..2048].to_vec() }))
    );
    assert_eq!(
        out.get("hello-2"),
        Some(&response("hello-2".to_string(), Data::Content { bytes: data[2048..2500].to_vec() }))
    );
    assert_eq!(out.get("hello-3"), None);
}

#[test]
fn chunk_names_count_in_decimal() {
    let out = mk_response("n".to_string(), vec![7; 1024 * 11 + 1]);
    assert_eq!(out.len(), 13);
    assert_eq!(
        out.get("n"),
        Some(&response("n".to_string(), Data::Manifest { chunk_count: 11 }))
    );
    assert_eq!(
        out.get("n-10"),
        Some(&response("n-10".to_string(), Data::Content { bytes: vec![7; 1024] }))
    );
    assert_eq!(
        out.get("n-11"),
        Some(&response("n-11".to_string(), Data::Content { bytes: vec![7; 1] }))
    );
}

#[test]
fn a_payload_of_exactly_two_chunks() {
    let out = mk_response("x".to_string(), vec![9; 2048]);
    assert_eq!(out.len(), 3);
    assert_eq!(
        out.get("x"),
        Some(&response("x".to_string(), Data::Manifest { chunk_count: 1 }))
    );
    assert_eq!(
        out.get("x-1"),
        Some(&response("x-1".to_string(), Data::Content { bytes: vec![9; 1024] }))
    );
}
