use postcard_rpc::wire::decode_header;
use postcard_rpc::wire::encode_header;
use postcard_rpc::wire::Key;
use postcard_rpc::wire::MalformedFrame;
use postcard_rpc::wire::RpcFrame;
use postcard_rpc::wire::WireHeader;
use postcard_rpc::wire::HEADER_LEN;
use postcard_rpc::wire::KEY_LEN;

fn key(first: u8) -> Key {
    let mut bytes = [0u8; 8];
    let mut i: usize = 0;
    while i < 8 {
        bytes[i] = first + i as u8;
        i += 1;
    }
    Key::from_bytes(bytes)
}

#[test]
fn header_is_key_then_little_endian_sequence_number() {
    let out = encode_header(key(1), 0x0A0B_0C0D);
    assert_eq!(out, vec![1, 2, 3, 4, 5, 6, 7, 8, 0x0D, 0x0C, 0x0B, 0x0A]);
    assert_eq!(out.len(), HEADER_LEN);
    assert_eq!(KEY_LEN, 8);
}

#[test]
fn header_of_sequence_number_zero_and_largest() {
    assert_eq!(encode_header(key(9), 0), vec![9, 10, 11, 12, 13, 14, 15, 16, 0, 0, 0, 0]);
    assert_eq!(
        encode_header(key(9), u32::MAX),
        vec![9, 10, 11, 12, 13, 14, 15, 16, 255, 255, 255, 255]
    );
    assert_eq!(encode_header(key(0), 256)[8..], [0, 1, 0, 0]);
    assert_eq!(encode_header(key(0), 65536)[8..], [0, 0, 1, 0]);
    assert_eq!(encode_header(key(0), 16777216)[8..], [0, 0, 0, 1]);
}

#[test]
fn frame_is_header_then_payload() {
    let frame = RpcFrame {
        header: WireHeader { key: key(1), seq_no: 7 },
        body: vec![0xAA, 0xBB, 0xCC],
    };
    assert_eq!(
        frame.to_bytes(),
        vec![1, 2, 3, 4, 5, 6, 7, 8, 7, 0, 0, 0, 0xAA, 0xBB, 0xCC]
    );
}

#[test]
fn frame_without_payload_is_its_header() {
    let frame = RpcFrame { header: WireHeader { key: key(1), seq_no: 1 }, body: vec![] };
    assert_eq!(frame.to_bytes(), encode_header(key(1), 1));
}

#[test]
fn decode_splits_header_and_remainder() {
    let octets: Vec<u8> = vec![1, 2, 3, 4, 5, 6, 7, 8, 0x0D, 0x0C, 0x0B, 0x0A, 42, 43];
    let (header, rest) = decode_header(&octets).unwrap();
    assert_eq!(header, WireHeader { key: key(1), seq_no: 0x0A0B_0C0D });
    assert_eq!(rest, &[42u8, 43u8][..]);
}

#[test]
fn decode_of_a_bare_header_leaves_nothing() {
    let octets = encode_header(key(3), 77);
    let (header, rest) = decode_header(&octets).unwrap();
    assert_eq!(header.key.to_bytes(), [3, 4, 5, 6, 7, 8, 9, 10]);
    assert_eq!(header.seq_no, 77);
    assert!(rest.is_empty());
}

#[test]
fn decode_refuses_fewer_octets_than_a_header() {
    let octets = encode_header(key(3), 77);
    let mut n: usize = 0;
    while n < HEADER_LEN {
        assert_eq!(decode_header(&octets[..n]), Err(MalformedFrame));
        n += 1;
    }
    assert!(decode_header(&octets[..HEADER_LEN]).is_ok());
}

#[test]
fn frame_from_bytes_refuses_short_input() {
    assert!(matches!(RpcFrame::from_bytes(&[]), Err(MalformedFrame)));
    assert!(matches!(RpcFrame::from_bytes(&[0u8; 11]), Err(MalformedFrame)));
}

#[test]
fn frame_round_trip() {
    let seqs: [u32; 6] = [0, 1, 255, 256, 0xDEAD_BEEF, u32::MAX];
    for seq_no in seqs {
        let frame = RpcFrame {
            header: WireHeader { key: key(200), seq_no },
            body: vec![1, 2, 3, seq_no as u8],
        };
        let back = RpcFrame::from_bytes(&frame.to_bytes()).unwrap();
        assert_eq!(back.header, frame.header);
        assert_eq!(back.body, frame.body);
    }
}

#[test]
fn headers_are_equal_when_key_and_number_are() {
    let a = WireHeader { key: key(1), seq_no: 5 };
    assert_eq!(a, WireHeader { key: key(1), seq_no: 5 });
    assert_ne!(a, WireHeader { key: key(1), seq_no: 6 });
    assert_ne!(a, WireHeader { key: key(2), seq_no: 5 });
    let mut other = key(1).to_bytes();
    other[7] = 0;
    assert_ne!(key(1), Key::from_bytes(other));
}
