//! Decisions of the Wi-Fi bring-up: the network stack's seed and the
//! connection supervisor's next step.

use vstd::prelude::*;

verus! {

/// Seconds the supervisor waits after a lost link or a failed attempt.
pub const RECONNECT_DELAY_SECS: u64 = 5;

/// The network stack's random seed made of two 32-bit random words: `high`
/// in the upper half, `low` in the lower.
pub fn random_seed(high: u32, low: u32) -> (seed: u64)
    ensures
        seed == high as int * 0x1_0000_0000 + low as int,
        seed >> 32 == high as u64,
        seed & 0xffff_ffff == low as u64,
{
    let h = high as u64;
    let l = low as u64;
    assert((h << 32u64) | l == h * 0x1_0000_0000 + l) by (bit_vector)
        requires
            h <= 0xffff_ffff,
            l <= 0xffff_ffff,
    ;
    assert(((h << 32u64) | l) >> 32u64 == h) by (bit_vector)
        requires
            h <= 0xffff_ffff,
            l <= 0xffff_ffff,
    ;
    assert(((h << 32u64) | l) & 0xffff_ffffu64 == l) by (bit_vector)
        requires
            h <= 0xffff_ffff,
            l <= 0xffff_ffff,
    ;
    (h << 32u64) | l
}

/// What the connection supervisor last learned about the link.
#[derive(Debug, Clone, Copy, PartialEq, Eq, Structural)]
pub enum LinkEvent {
    /// The controller reports a connection.
    Connected,
    /// The controller reports no connection.
    NotConnected,
    /// An established connection was lost.
    Disconnected,
    /// A connection attempt succeeded.
    ConnectSucceeded,
    /// A connection attempt failed.
    ConnectFailed,
}

/// What the connection supervisor does next.
#[derive(Debug, Clone, Copy, PartialEq, Eq, Structural)]
pub enum LinkAction {
    /// Wait until the connection is lost.
    AwaitDisconnect,
    /// Configure the station, scan, and try to connect.
    Connect,
    /// Sleep this many seconds, then ask the controller again.
    PauseThenCheck(u64),
    /// Ask the controller whether it is connected.
    Check,
}

/// The supervisor's next step: hold a live link, bring a missing one up,
/// and back off for [`RECONNECT_DELAY_SECS`] after a loss or a failure.
pub fn next_link_action(event: LinkEvent) -> (a: LinkAction)
    ensures
        event == LinkEvent::Connected ==> a == LinkAction::AwaitDisconnect,
        event == LinkEvent::NotConnected ==> a == LinkAction::Connect,
        event == LinkEvent::Disconnected ==> a == LinkAction::PauseThenCheck(
            RECONNECT_DELAY_SECS,
        ),
        event == LinkEvent::ConnectFailed ==> a == LinkAction::PauseThenCheck(
            RECONNECT_DELAY_SECS,
        ),
        event == LinkEvent::ConnectSucceeded ==> a == LinkAction::Check,
{
    match event {
        LinkEvent::Connected => LinkAction::AwaitDisconnect,
        LinkEvent::NotConnected => LinkAction::Connect,
        LinkEvent::Disconnected => LinkAction::PauseThenCheck(RECONNECT_DELAY_SECS),
        LinkEvent::ConnectFailed => LinkAction::PauseThenCheck(RECONNECT_DELAY_SECS),
        LinkEvent::ConnectSucceeded => LinkAction::Check,
    }
}

} // verus!
