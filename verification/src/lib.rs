//! Binding between CloudEvents and the option/payload model of CoAP
//! messages.
//!
//! An event travels in a CoAP packet in one of two ways.  In binary mode each
//! attribute has an option of its own and the payload holds the data of the
//! event; in structured mode the payload holds the whole event as JSON and the
//! content-format option says so.  [`coap_request`] reads a packet,
//! [`coap_response`] writes one, and [`headers`] holds the registry that both
//! go by.  [`laws`] states what holds between the two directions.

use crate::coap_request::{decode_packet, CoapRequestDeserializer, Decoded};
use crate::coap_response::{CoapMessage, MessageView};
use crate::event::{CodecError, EncodePolicy, Event};
use crate::headers::AttributeOptionRegistry;
use crate::packet::{packet_options, packet_payload};
use coap_lite::Packet;
use vstd::prelude::*;

pub mod coap_request;
pub mod coap_response;
pub mod event;
pub mod headers;
pub mod laws;
pub mod packet;
mod private;
pub mod text;

verus! {

/// What the adapter over a CoAP packet offers on top of the packet: reading
/// the event that it carries, and being made from an event.
///
/// The trait is sealed: no type outside this crate can have it.
pub trait CoapRequestExt: private::Sealed + View<V = MessageView> + Sized {
    /// Reads what the packet carries, with the registry of the adapter.
    fn to_event(&self) -> (decoded: Result<Decoded, CodecError>)
        ensures
            match decode_packet(self@.options, self@.payload, self@.registry) {
                Ok(view) => decoded is Ok && decoded->Ok_0@ == view,
                Err(error) => decoded is Err && decoded->Err_0 == error,
            },
    ;

    /// Writes an event into a fresh packet, in binary mode.
    fn from_event(
        event: Event,
        registry: AttributeOptionRegistry,
        policy: EncodePolicy,
    ) -> (message: Result<Self, CodecError>)
        ensures
            match coap_response::encode(event@, registry, policy) {
                Ok(view) => message is Ok && message->Ok_0@ == view,
                Err(error) => message is Err && message->Err_0 == error,
            },
    ;
}

/// Reads the event that a packet carries in binary mode.
///
/// Every option that is present has to stand for text, the message has to be
/// binary, and its spec version has to be known; the errors come in this
/// order.  Nothing is handed out of a packet that fails.
pub fn decode(packet: &Packet, registry: &AttributeOptionRegistry) -> (event: Result<
    Event,
    CodecError,
>)
    ensures
        match coap_request::decode(packet_options(*packet), packet_payload(*packet), *registry) {
            Ok(view) => event is Ok && event->Ok_0@ == view,
            Err(error) => event is Err && event->Err_0 == error,
        },
{
    match CoapRequestDeserializer::new(packet, registry) {
        Ok(deserializer) => deserializer.deserialize_binary(registry),
        Err(error) => Err(error),
    }
}

/// Writes an event into a fresh packet in binary mode.  Nothing is handed out
/// of an event that fails.
pub fn encode(event: Event, registry: AttributeOptionRegistry, policy: EncodePolicy) -> (packet:
    Result<Packet, CodecError>)
    ensures
        match coap_response::encode(event@, registry, policy) {
            Ok(view) => packet is Ok && packet_options(packet->Ok_0) == view.options
                && packet_payload(packet->Ok_0) == view.payload,
            Err(error) => packet is Err && packet->Err_0 == error,
        },
{
    match CoapMessage::from_event(event, registry, policy) {
        Ok(message) => Ok(message.into_packet()),
        Err(error) => Err(error),
    }
}

} // verus!
