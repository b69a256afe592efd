use wolwaker::mac::MacAddress;
use wolwaker::packet::MagicPacketBuilder;
use wolwaker::service::{SendError, WakeResult, WakeService};

#[test]
fn service_packet_matches_builder() {
    let mac = MacAddress::parse("00:11:22:33:44:55", ':').unwrap();
    let service = WakeService::new(mac);
    let direct = MagicPacketBuilder::build(&mac);
    assert_eq!(service.packet().as_bytes(), direct.as_bytes());
}

#[test]
fn service_keeps_target() {
    let mac = MacAddress::from_octets([9, 8, 7, 6, 5, 4]);
    let service = WakeService::new(mac);
    assert_eq!(service.mac().octets(), [9, 8, 7, 6, 5, 4]);
}

#[test]
fn complete_reports_success() {
    assert_eq!(WakeService::complete(Ok(())), WakeResult::Success);
}

#[test]
fn complete_reports_each_failure() {
    assert_eq!(
        WakeService::complete(Err(SendError::SocketSetupFailed)),
        WakeResult::Failure(SendError::SocketSetupFailed)
    );
    assert_eq!(
        WakeService::complete(Err(SendError::TransmitFailed)),
        WakeResult::Failure(SendError::TransmitFailed)
    );
}

#[test]
fn failed_trigger_leaves_next_intact() {
    let mac = MacAddress::parse("00:11:22:33:44:55", ':').unwrap();
    let service = WakeService::new(mac);

    let first_packet = service.packet();
    let first = WakeService::complete(Err(SendError::TransmitFailed));
    assert_eq!(first, WakeResult::Failure(SendError::TransmitFailed));

    let second_packet = service.packet();
    let second = WakeService::complete(Ok(()));
    assert_eq!(second, WakeResult::Success);
    assert_eq!(first_packet.as_bytes(), second_packet.as_bytes());
}

#[test]
fn repeated_triggers_are_independent() {
    let mac = MacAddress::parse("ff:ee:dd:cc:bb:aa", ':').unwrap();
    let service = WakeService::new(mac);
    let reference = service.packet();
    for _ in 0..8 {
        let packet = service.packet();
        assert_eq!(packet.as_bytes(), reference.as_bytes());
        assert_eq!(WakeService::complete(Ok(())), WakeResult::Success);
    }
}
