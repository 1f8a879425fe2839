//! The CoAP packet as this library sees it: a map from option numbers to
//! ordered lists of byte values, plus one payload buffer.
//!
//! `coap_lite::Packet` stores the options and the payload; nothing in this
//! module is proved.  Each function states what the corresponding method of
//! `coap_lite` does to those two parts.

use crate::text::segments_view;
use coap_lite::{CoapOption, Packet};
use vstd::prelude::*;

verus! {

#[verifier::external_type_specification]
#[verifier::external_body]
pub struct ExPacket(Packet);

/// An option set: for each option number that occurs, the values stored under
/// it, oldest first.
pub type OptionSet = Map<u16, Seq<Seq<u8>>>;

/// The options that a packet holds.
pub uninterp spec fn packet_options(packet: Packet) -> OptionSet;

/// An option set with one more value under `number`: behind the values that
/// are there already, or as the first.
pub open spec fn emit(options: OptionSet, number: u16, value: Seq<u8>) -> OptionSet {
    options.insert(
        number,
        if options.contains_key(number) {
            options[number].push(value)
        } else {
            seq![value]
        },
    )
}

/// The payload bytes that a packet holds.
pub uninterp spec fn packet_payload(packet: Packet) -> Seq<u8>;

/// `Packet::new`: a packet without options and with an empty payload.
#[verifier::external_body]
pub(crate) fn new_packet() -> (packet: Packet)
    ensures
        packet_options(packet) == OptionSet::empty(),
        packet_payload(packet) == Seq::<u8>::empty(),
{
    Packet::new()
}

/// `Packet::add_option`: appends `value` to the list stored under `number`,
/// starting a new list when the packet has none for that number.  The payload
/// and the other options are left alone.
#[verifier::external_body]
pub(crate) fn add_option(packet: &mut Packet, number: u16, value: Vec<u8>)
    ensures
        packet_options(*final(packet)) == emit(packet_options(*old(packet)), number, value@),
        packet_payload(*final(packet)) == packet_payload(*old(packet)),
{
    packet.add_option(CoapOption::from(number), value)
}

/// `Packet::get_option`: the values stored under `number`, oldest first, or
/// `None` when the packet has no entry for that number.
#[verifier::external_body]
pub(crate) fn get_option(packet: &Packet, number: u16) -> (values: Option<Vec<Vec<u8>>>)
    ensures
        values is Some <==> packet_options(*packet).contains_key(number),
        values matches Some(v) ==> segments_view(v@) == packet_options(*packet)[number],
{
    packet.get_option(CoapOption::from(number)).map(|list| list.iter().cloned().collect())
}

/// `Packet::options`: the option numbers that the packet has an entry for,
/// in ascending order and each once.
#[verifier::external_body]
pub(crate) fn option_numbers(packet: &Packet) -> (numbers: Vec<u16>)
    ensures
        forall|i: int, j: int| 0 <= i < j < numbers@.len() ==> numbers@[i] < numbers@[j],
        forall|n: u16| numbers@.contains(n) <==> packet_options(*packet).contains_key(n),
{
    packet.options().map(|entry| *entry.0).collect()
}

/// Reads the public field `Packet::payload`.
#[verifier::external_body]
pub(crate) fn get_payload(packet: &Packet) -> (payload: Vec<u8>)
    ensures
        payload@ == packet_payload(*packet),
{
    packet.payload.clone()
}

/// Writes the public field `Packet::payload`; the options are left alone.
#[verifier::external_body]
pub(crate) fn set_payload(packet: &mut Packet, payload: Vec<u8>)
    ensures
        packet_payload(*final(packet)) == payload@,
        packet_options(*final(packet)) == packet_options(*old(packet)),
{
    packet.payload = payload;
}

} // verus!
