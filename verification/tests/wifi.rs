use dsmr_to_zaptec::wifi::{next_link_action, random_seed, LinkAction, LinkEvent, RECONNECT_DELAY_SECS};
use dsmr_to_zaptec::DSMR_BUFFER_SIZE;

#[test]
fn seed_halves() {
    assert_eq!(random_seed(0x1234_5678, 0x9abc_def0), 0x1234_5678_9abc_def0);
    assert_eq!(random_seed(0, 0), 0);
    assert_eq!(random_seed(u32::MAX, u32::MAX), u64::MAX);
    assert_eq!(random_seed(1, 0), 1u64 << 32);
}

#[test]
fn link_supervisor_steps() {
    assert_eq!(next_link_action(LinkEvent::Connected), LinkAction::AwaitDisconnect);
    assert_eq!(next_link_action(LinkEvent::NotConnected), LinkAction::Connect);
    assert_eq!(next_link_action(LinkEvent::Disconnected), LinkAction::PauseThenCheck(5));
    assert_eq!(next_link_action(LinkEvent::ConnectFailed), LinkAction::PauseThenCheck(RECONNECT_DELAY_SECS));
    assert_eq!(next_link_action(LinkEvent::ConnectSucceeded), LinkAction::Check);
}

#[test]
fn buffer_size() {
    assert_eq!(DSMR_BUFFER_SIZE, 4096);
}
