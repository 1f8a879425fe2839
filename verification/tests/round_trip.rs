use cloudevents_coap::coap_request::{CoapRequestDeserializer, Decoded};
use cloudevents_coap::coap_response::CoapMessage;
use cloudevents_coap::event::{CodecError, EncodePolicy, Event, Extension, SpecVersion};
use cloudevents_coap::headers::AttributeOptionRegistry;
use cloudevents_coap::CoapRequestExt;

fn registries() -> Vec<AttributeOptionRegistry> {
    vec![
        AttributeOptionRegistry::base_2048(),
        AttributeOptionRegistry::base_4200(),
        AttributeOptionRegistry::base_2048().with_path_subject(),
        AttributeOptionRegistry::base_4200().with_path_subject(),
        AttributeOptionRegistry::with_base(13, true).unwrap(),
        AttributeOptionRegistry::with_base(65529, false).unwrap(),
    ]
}

fn round_trip(event: &Event, registry: AttributeOptionRegistry, policy: EncodePolicy) -> Result<Event, CodecError> {
    let message = match CoapMessage::from_event(event.clone(), registry, policy) {
        Ok(message) => message,
        Err(error) => return Err(error),
    };
    let packet = message.into_packet();
    CoapRequestDeserializer::new(&packet, &registry)?.deserialize_binary(&registry)
}

fn scenario() -> Event {
    let mut event = Event::new(SpecVersion::V10);
    event.id = Some("1".to_string());
    event.source = Some("urn:x".to_string());
    event.ty = Some("example".to_string());
    event.datacontenttype = Some("text/plain".to_string());
    event.data = Some(b"hello".to_vec());
    event
}

#[test]
fn scenario_event_decodes_back_to_itself() {
    for registry in registries() {
        assert_eq!(round_trip(&scenario(), registry, EncodePolicy::Strict), Ok(scenario()));
    }
}

#[test]
fn core_attributes_survive_the_round_trip() {
    let texts = ["", "a", "urn:x", "a/b/c", "/lead", "trail/", "\u{fc}ber/\u{4e2d}", "with space"];
    for registry in registries() {
        for version in [SpecVersion::V10, SpecVersion::V03] {
            for (i, text) in texts.iter().enumerate() {
                let mut event = Event::new(version);
                event.id = Some(text.to_string());
                event.source = if i % 2 == 0 { Some(format!("s{}", text)) } else { None };
                event.ty = if i % 3 == 0 { None } else { Some(format!("t{}", text)) };
                event.datacontenttype = if i % 2 == 1 { Some(format!("text/{}", i)) } else { None };
                event.dataschema = if version == SpecVersion::V10 && i % 2 == 0 {
                    Some(format!("schema{}", text))
                } else {
                    None
                };
                event.subject = Some(text.to_string());
                event.time = if i % 4 == 0 { Some("2020-01-01T00:00:00Z".to_string()) } else { None };
                event.data = Some(text.as_bytes().to_vec());
                assert_eq!(round_trip(&event, registry, EncodePolicy::Strict), Ok(event.clone()));
            }
        }
    }
}

#[test]
fn binary_data_survives_the_round_trip() {
    let mut event = scenario();
    event.data = Some(vec![0, 255, 254, 10, 13, 0]);
    assert_eq!(
        round_trip(&event, AttributeOptionRegistry::base_4200(), EncodePolicy::Strict),
        Ok(event)
    );
}

#[test]
fn event_without_data_comes_back_with_empty_data() {
    let mut event = scenario();
    event.data = None;
    let mut expected = scenario();
    expected.data = Some(Vec::new());
    assert_eq!(
        round_trip(&event, AttributeOptionRegistry::base_4200(), EncodePolicy::Strict),
        Ok(expected)
    );
}

#[test]
fn structured_content_type_does_not_come_back_as_binary() {
    let mut event = scenario();
    event.datacontenttype = Some("application/cloudevents+json".to_string());
    assert_eq!(
        round_trip(&event, AttributeOptionRegistry::base_4200(), EncodePolicy::Strict),
        Err(CodecError::WrongEncoding)
    );
}

#[test]
fn version_03_event_with_dataschema_is_not_written() {
    let mut event = scenario();
    event.specversion = SpecVersion::V03;
    event.dataschema = Some("http://s".to_string());
    assert_eq!(
        round_trip(&event, AttributeOptionRegistry::base_4200(), EncodePolicy::Strict),
        Err(CodecError::UnknownAttribute)
    );
}

#[test]
fn path_subject_round_trip() {
    let registry = AttributeOptionRegistry::base_4200().with_path_subject();
    let mut event = scenario();
    event.subject = Some("a/b/c".to_string());
    let message = CoapMessage::from_event(event.clone(), registry, EncodePolicy::Strict).ok().unwrap();
    let segments: Vec<Vec<u8>> = message
        .packet()
        .get_option(coap_lite::CoapOption::UriPath)
        .unwrap()
        .iter()
        .cloned()
        .collect();
    assert_eq!(segments, vec![b"a".to_vec(), b"b".to_vec(), b"c".to_vec()]);
    let decoded = CoapRequestDeserializer::new(message.packet(), &registry)
        .unwrap()
        .deserialize_binary(&registry)
        .unwrap();
    assert_eq!(decoded.subject, Some("a/b/c".to_string()));
    assert_eq!(decoded, event);
}

#[test]
fn extensions_named_by_number_survive_in_ascending_order() {
    let registry = AttributeOptionRegistry::base_4200();
    let mut event = scenario();
    event.extensions = vec![
        Extension { name: "4207".to_string(), value: "a".to_string() },
        Extension { name: "5000".to_string(), value: "b".to_string() },
        Extension { name: "65535".to_string(), value: "c".to_string() },
    ];
    assert_eq!(round_trip(&event, registry, EncodePolicy::Strict), Ok(event.clone()));
    let mut other_order = event.clone();
    other_order.extensions.reverse();
    assert_eq!(round_trip(&other_order, registry, EncodePolicy::Strict), Ok(event.clone()));
    let mut other_spelling = event.clone();
    other_spelling.extensions[0].name = "+04207".to_string();
    assert_eq!(round_trip(&other_spelling, registry, EncodePolicy::Strict), Ok(event));
}

#[test]
fn extension_below_the_base_is_not_read_back() {
    let registry = AttributeOptionRegistry::base_4200();
    let mut event = scenario();
    event.extensions = vec![Extension { name: "100".to_string(), value: "a".to_string() }];
    assert_eq!(round_trip(&event, registry, EncodePolicy::Strict), Ok(scenario()));
}

#[test]
fn injected_defaults_round_trip() {
    let registry = AttributeOptionRegistry::base_4200();
    assert_eq!(round_trip(&scenario(), registry, EncodePolicy::InjectDefaults), Ok(scenario()));
    let mut bare = Event::new(SpecVersion::V10);
    bare.data = Some(Vec::new());
    let mut expected = bare.clone();
    expected.datacontenttype = Some("application/octet-stream".to_string());
    expected.ty = Some("io.drogue.event.v1".to_string());
    assert_eq!(round_trip(&bare, registry, EncodePolicy::InjectDefaults), Ok(expected));
}

#[test]
fn to_event_reads_what_from_event_wrote() {
    let registry = AttributeOptionRegistry::base_2048().with_path_subject();
    let mut event = scenario();
    event.subject = Some("devices/7".to_string());
    let message =
        <CoapMessage as CoapRequestExt>::from_event(event.clone(), registry, EncodePolicy::Strict)
            .ok()
            .unwrap();
    assert_eq!(message.to_event(), Ok(Decoded::Binary(event)));
}

#[test]
fn to_event_on_received_packets() {
    let registry = AttributeOptionRegistry::base_4200();
    let mut packet = coap_lite::Packet::new();
    packet.add_option(coap_lite::CoapOption::ContentFormat, b"application/cloudevents+json".to_vec());
    packet.payload = b"{}".to_vec();
    let message = CoapMessage::from_packet(packet, registry, EncodePolicy::Strict);
    assert_eq!(message.to_event(), Ok(Decoded::Structured(b"{}".to_vec())));
    let mut unknown = coap_lite::Packet::new();
    unknown.add_option(coap_lite::CoapOption::ContentFormat, b"text/plain".to_vec());
    let message = CoapMessage::from_packet(unknown, registry, EncodePolicy::Strict);
    assert_eq!(message.to_event(), Err(CodecError::WrongEncoding));
    let mut broken = coap_lite::Packet::new();
    broken.add_option(coap_lite::CoapOption::Unknown(4202), vec![0xff]);
    let message = CoapMessage::from_packet(broken, registry, EncodePolicy::Strict);
    assert_eq!(message.to_event(), Err(CodecError::InvalidUtf8Value));
}

#[test]
fn structured_message_written_and_read() {
    let registry = AttributeOptionRegistry::base_4200();
    let json = br#"{"specversion":"1.0","id":"1","source":"urn:x","type":"example"}"#.to_vec();
    let message = CoapMessage::new(registry, EncodePolicy::Strict).set_structured_event(json.clone());
    assert_eq!(message.to_event(), Ok(Decoded::Structured(json)));
}

#[test]
fn encode_then_decode_gives_the_event_back() {
    for registry in registries() {
        let packet = cloudevents_coap::encode(scenario(), registry, EncodePolicy::Strict).unwrap();
        assert_eq!(packet.payload, b"hello".to_vec());
        assert_eq!(cloudevents_coap::decode(&packet, &registry), Ok(scenario()));
    }
}

#[test]
fn decode_reports_errors_in_order() {
    let registry = AttributeOptionRegistry::base_4200();
    let mut packet = coap_lite::Packet::new();
    assert_eq!(cloudevents_coap::decode(&packet, &registry), Err(CodecError::WrongEncoding));
    packet.add_option(coap_lite::CoapOption::Unknown(4202), b"9.9".to_vec());
    assert_eq!(cloudevents_coap::decode(&packet, &registry), Err(CodecError::InvalidSpecVersion));
    packet.add_option(coap_lite::CoapOption::ContentFormat, b"application/cloudevents+json".to_vec());
    assert_eq!(cloudevents_coap::decode(&packet, &registry), Err(CodecError::WrongEncoding));
    packet.add_option(coap_lite::CoapOption::ETag, vec![0x80]);
    assert_eq!(cloudevents_coap::decode(&packet, &registry), Err(CodecError::InvalidUtf8Value));
}

#[test]
fn encode_reports_its_errors() {
    let registry = AttributeOptionRegistry::base_4200();
    let mut event = scenario();
    event.extensions = vec![Extension { name: "4203".to_string(), value: "x".to_string() }];
    assert_eq!(
        cloudevents_coap::encode(event, registry, EncodePolicy::Strict).err(),
        Some(CodecError::ReservedOrDuplicateOption)
    );
    let mut event = scenario();
    event.extensions = vec![Extension { name: "name".to_string(), value: "x".to_string() }];
    assert_eq!(
        cloudevents_coap::encode(event, registry, EncodePolicy::Strict).err(),
        Some(CodecError::InvalidExtensionName)
    );
}
