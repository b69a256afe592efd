use wolwaker::mac::MacAddress;
use wolwaker::packet::MagicPacketBuilder;

fn expected_packet(octets: [u8; 6]) -> Vec<u8> {
    let mut bytes = vec![0xffu8; 6];
    for _ in 0..16 {
        bytes.extend_from_slice(&octets);
    }
    bytes
}

#[test]
fn build_exact_bytes() {
    let mac = MacAddress::parse("00:11:22:33:44:55", ':').unwrap();
    let packet = MagicPacketBuilder::build(&mac);
    let expected = expected_packet([0x00, 0x11, 0x22, 0x33, 0x44, 0x55]);
    assert_eq!(expected.len(), 102);
    assert_eq!(packet.as_bytes(), &expected);
}

#[test]
fn build_length_and_prefix() {
    let mac = MacAddress::from_octets([0xde, 0xad, 0xbe, 0xef, 0x01, 0x02]);
    let packet = MagicPacketBuilder::build(&mac);
    let bytes = packet.as_bytes();
    assert_eq!(bytes.len(), 102);
    assert!(bytes[..6].iter().all(|b| *b == 0xff));
    for rep in 0..16 {
        assert_eq!(bytes[6 + 6 * rep..6 + 6 * rep + 6], [0xde, 0xad, 0xbe, 0xef, 0x01, 0x02]);
    }
}

#[test]
fn build_deterministic() {
    let mac = MacAddress::parse("a1:b2:c3:d4:e5:f6", ':').unwrap();
    let first = MagicPacketBuilder::build(&mac);
    let second = MagicPacketBuilder::build(&mac);
    assert_eq!(first.as_bytes(), second.as_bytes());
}

#[test]
fn build_follows_octets() {
    let a = MagicPacketBuilder::build(&MacAddress::from_octets([0, 0, 0, 0, 0, 1]));
    let b = MagicPacketBuilder::build(&MacAddress::from_octets([0, 0, 0, 0, 0, 2]));
    assert_ne!(a.as_bytes(), b.as_bytes());
    assert_eq!(a.as_bytes()[..6], b.as_bytes()[..6]);
}
