//! Outbound channel endpoints. The client ships packets to neighbors and
//! events to the simulation controller over `crossbeam_channel` senders;
//! the senders are opaque here and each send is a trusted call whose outcome
//! depends on the receiving side, so nothing is promised of it.

use crate::types::{Event, Packet};
use vstd::prelude::*;

verus! {

#[verifier::external_type_specification]
#[verifier::external_body]
#[verifier::reject_recursive_types(T)]
pub struct ExSender<T>(crossbeam_channel::Sender<T>);

/// Relies on `crossbeam_channel::Sender::send`: waits while a bounded
/// channel is full, and returns `Ok` unless every receiver of the channel
/// is gone. Whether it succeeds depends on the receiving side, so no
/// outcome is promised.
#[verifier::external_body]
pub(crate) fn send_packet_on(ch: &crossbeam_channel::Sender<Packet>, p: Packet) -> (r: bool) {
    ch.send(p).is_ok()
}

/// Relies on `crossbeam_channel::Sender::send`: waits while a bounded
/// channel is full, and returns `Ok` unless every receiver of the channel
/// is gone. Whether it succeeds depends on the receiving side, so no
/// outcome is promised.
#[verifier::external_body]
pub(crate) fn send_event_on(ch: &crossbeam_channel::Sender<Event>, e: Event) -> (r: bool) {
    ch.send(e).is_ok()
}

} // verus!
