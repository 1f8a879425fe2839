use cloudevents_coap::coap_request::{CoapRequestDeserializer, Decoded};
use cloudevents_coap::event::{CodecError, Encoding, Event, Extension, SpecVersion};
use cloudevents_coap::headers::AttributeOptionRegistry;
use coap_lite::{CoapOption, Packet};

fn packet_with(options: &[(u16, &[u8])], payload: &[u8]) -> Packet {
    let mut packet = Packet::new();
    for (number, value) in options {
        packet.add_option(CoapOption::from(*number), value.to_vec());
    }
    packet.payload = payload.to_vec();
    packet
}

fn extension(name: &str, value: &str) -> Extension {
    Extension { name: name.to_string(), value: value.to_string() }
}

#[test]
fn binary_message_is_detected() {
    let registry = AttributeOptionRegistry::base_4200();
    let packet = packet_with(&[(4202, b"1.0"), (12, b"text/plain")], b"");
    let deserializer = CoapRequestDeserializer::new(&packet, &registry).unwrap();
    assert_eq!(deserializer.encoding(&registry), Encoding::Binary);
    let bare = packet_with(&[(4202, b"1.0")], b"");
    let deserializer = CoapRequestDeserializer::new(&bare, &registry).unwrap();
    assert_eq!(deserializer.encoding(&registry), Encoding::Binary);
}

#[test]
fn structured_message_is_detected() {
    let registry = AttributeOptionRegistry::base_4200();
    for format in [
        &b"application/cloudevents+json"[..],
        &b"application/cloudevents+json; charset=utf-8"[..],
        &b"application/cloudevents+jsonx"[..],
    ] {
        let packet = packet_with(&[(12, format)], b"{}");
        let deserializer = CoapRequestDeserializer::new(&packet, &registry).unwrap();
        assert_eq!(deserializer.encoding(&registry), Encoding::Structured);
    }
    let both = packet_with(&[(12, b"application/cloudevents+json"), (4202, b"1.0")], b"{}");
    let deserializer = CoapRequestDeserializer::new(&both, &registry).unwrap();
    assert_eq!(deserializer.encoding(&registry), Encoding::Structured);
}

#[test]
fn unknown_message_is_detected() {
    let registry = AttributeOptionRegistry::base_4200();
    for packet in [
        packet_with(&[], b""),
        packet_with(&[(12, b"text/plain")], b"x"),
        packet_with(&[(12, b"application/cloudevents")], b"x"),
        packet_with(&[(12, b"Application/CloudEvents+JSON")], b"x"),
        packet_with(&[(4200, b"1"), (4203, b"t")], b"x"),
        packet_with(&[(2050, b"1.0")], b"x"),
    ] {
        let deserializer = CoapRequestDeserializer::new(&packet, &registry).unwrap();
        assert_eq!(deserializer.encoding(&registry), Encoding::Unknown);
    }
}

#[test]
fn detection_goes_by_the_registry() {
    let packet = packet_with(&[(2050, b"1.0")], b"");
    let registry = AttributeOptionRegistry::base_2048();
    let deserializer = CoapRequestDeserializer::new(&packet, &registry).unwrap();
    assert_eq!(deserializer.encoding(&registry), Encoding::Binary);
}

#[test]
fn missing_spec_version_with_plain_content_format_is_wrong_encoding() {
    let registry = AttributeOptionRegistry::base_4200();
    let packet = packet_with(&[(12, b"text/plain"), (4200, b"1")], b"hello");
    let deserializer = CoapRequestDeserializer::new(&packet, &registry).unwrap();
    assert_eq!(deserializer.encoding(&registry), Encoding::Unknown);
    assert_eq!(deserializer.deserialize_binary(&registry), Err(CodecError::WrongEncoding));
    let deserializer = CoapRequestDeserializer::new(&packet, &registry).unwrap();
    assert_eq!(deserializer.deserialize_structured(&registry), Err(CodecError::WrongEncoding));
    let deserializer = CoapRequestDeserializer::new(&packet, &registry).unwrap();
    assert_eq!(deserializer.into_event(&registry), Err(CodecError::WrongEncoding));
}

#[test]
fn binary_decode_reads_core_attributes() {
    let registry = AttributeOptionRegistry::base_4200();
    let packet = packet_with(
        &[
            (4202, b"1.0"),
            (12, b"text/plain"),
            (4200, b"1"),
            (4201, b"urn:x"),
            (4203, b"example"),
            (4204, b"http://schema"),
            (4205, b"a/b"),
            (4206, b"2020-01-01T00:00:00Z"),
        ],
        b"hello",
    );
    let event = CoapRequestDeserializer::new(&packet, &registry)
        .unwrap()
        .deserialize_binary(&registry)
        .unwrap();
    assert_eq!(
        event,
        Event {
            specversion: SpecVersion::V10,
            id: Some("1".to_string()),
            source: Some("urn:x".to_string()),
            ty: Some("example".to_string()),
            datacontenttype: Some("text/plain".to_string()),
            dataschema: Some("http://schema".to_string()),
            subject: Some("a/b".to_string()),
            time: Some("2020-01-01T00:00:00Z".to_string()),
            extensions: vec![],
            data: Some(b"hello".to_vec()),
        }
    );
}

#[test]
fn binary_decode_attaches_an_empty_payload() {
    let registry = AttributeOptionRegistry::base_4200();
    let packet = packet_with(&[(4202, b"0.3")], b"");
    let event = CoapRequestDeserializer::new(&packet, &registry)
        .unwrap()
        .deserialize_binary(&registry)
        .unwrap();
    let mut expected = Event::new(SpecVersion::V03);
    expected.data = Some(Vec::new());
    assert_eq!(event, expected);
}

#[test]
fn binary_decode_names_extensions_by_number_in_ascending_order() {
    let registry = AttributeOptionRegistry::base_4200();
    let packet = packet_with(
        &[
            (65535, b"last"),
            (4207, b"first"),
            (4202, b"1.0"),
            (5000, b"middle"),
            (4200, b"id"),
            (3, b"host"),
            (11, b"path"),
            (2048, b"below the base"),
            (4199, b"just below"),
        ],
        b"",
    );
    let event = CoapRequestDeserializer::new(&packet, &registry)
        .unwrap()
        .deserialize_binary(&registry)
        .unwrap();
    assert_eq!(event.id, Some("id".to_string()));
    assert_eq!(event.subject, None);
    assert_eq!(
        event.extensions,
        vec![
            extension("4207", "first"),
            extension("5000", "middle"),
            extension("65535", "last"),
        ]
    );
}

#[test]
fn binary_decode_with_lower_base_takes_more_options() {
    let registry = AttributeOptionRegistry::base_2048();
    let packet = packet_with(&[(2050, b"1.0"), (2048, b"i"), (4200, b"x"), (2047, b"no")], b"");
    let event = CoapRequestDeserializer::new(&packet, &registry)
        .unwrap()
        .deserialize_binary(&registry)
        .unwrap();
    assert_eq!(event.id, Some("i".to_string()));
    assert_eq!(event.extensions, vec![extension("4200", "x")]);
}

#[test]
fn binary_decode_takes_the_latest_value() {
    let registry = AttributeOptionRegistry::base_4200();
    let packet = packet_with(
        &[(4202, b"1.0"), (4203, b"io.drogue.event.v1"), (4203, b"example"), (4210, b"a"), (4210, b"b")],
        b"",
    );
    let event = CoapRequestDeserializer::new(&packet, &registry)
        .unwrap()
        .deserialize_binary(&registry)
        .unwrap();
    assert_eq!(event.ty, Some("example".to_string()));
    assert_eq!(event.extensions, vec![extension("4210", "b")]);
}

#[test]
fn version_03_reads_dataschema_option_as_extension() {
    let registry = AttributeOptionRegistry::base_4200();
    let packet = packet_with(&[(4202, b"0.3"), (4204, b"http://schema"), (4200, b"1")], b"");
    let event = CoapRequestDeserializer::new(&packet, &registry)
        .unwrap()
        .deserialize_binary(&registry)
        .unwrap();
    assert_eq!(event.specversion, SpecVersion::V03);
    assert_eq!(event.dataschema, None);
    assert_eq!(event.id, Some("1".to_string()));
    assert_eq!(event.extensions, vec![extension("4204", "http://schema")]);
}

#[test]
fn path_segments_are_joined_into_subject() {
    let registry = AttributeOptionRegistry::base_4200().with_path_subject();
    let packet = packet_with(&[(4202, b"1.0"), (11, b"a"), (11, b"b"), (11, b"c"), (4205, b"x")], b"");
    let event = CoapRequestDeserializer::new(&packet, &registry)
        .unwrap()
        .deserialize_binary(&registry)
        .unwrap();
    assert_eq!(event.subject, Some("a/b/c".to_string()));
    assert_eq!(event.extensions, vec![extension("4205", "x")]);
}

#[test]
fn path_is_ignored_without_aggregation() {
    let registry = AttributeOptionRegistry::base_4200();
    let packet = packet_with(&[(4202, b"1.0"), (11, b"a"), (11, b"b")], b"");
    let event = CoapRequestDeserializer::new(&packet, &registry)
        .unwrap()
        .deserialize_binary(&registry)
        .unwrap();
    assert_eq!(event.subject, None);
    assert!(event.extensions.is_empty());
}

#[test]
fn invalid_utf8_fails_the_whole_decode() {
    let registry = AttributeOptionRegistry::base_4200();
    for packet in [
        packet_with(&[(4202, b"1.0"), (4200, &[0xff])], b""),
        packet_with(&[(4202, b"1.0"), (3, &[0xc3])], b""),
        packet_with(&[(4202, &[0x31, 0x80])], b""),
        packet_with(&[(12, &[0xfe]), (4202, b"1.0")], b""),
    ] {
        assert_eq!(
            CoapRequestDeserializer::new(&packet, &registry).err(),
            Some(CodecError::InvalidUtf8Value)
        );
    }
    let earlier_value = packet_with(&[(4202, b"1.0"), (4200, &[0xff]), (4200, b"ok")], b"");
    assert!(CoapRequestDeserializer::new(&earlier_value, &registry).is_ok());
}

#[test]
fn invalid_utf8_in_a_path_segment() {
    let path = AttributeOptionRegistry::base_4200().with_path_subject();
    let plain = AttributeOptionRegistry::base_4200();
    let packet = packet_with(&[(4202, b"1.0"), (11, &[0xff]), (11, b"b")], b"");
    assert_eq!(
        CoapRequestDeserializer::new(&packet, &path).err(),
        Some(CodecError::InvalidUtf8Value)
    );
    assert!(CoapRequestDeserializer::new(&packet, &plain).is_ok());
    let split = packet_with(&[(4202, b"1.0"), (11, &[0xc3]), (11, &[0xa9])], b"");
    assert_eq!(
        CoapRequestDeserializer::new(&split, &path).err(),
        Some(CodecError::InvalidUtf8Value)
    );
}

#[test]
fn unparseable_spec_version() {
    let registry = AttributeOptionRegistry::base_4200();
    for version in [&b"2.0"[..], &b""[..], &b"1.0.0"[..], &b"v1.0"[..]] {
        let packet = packet_with(&[(4202, version)], b"");
        let deserializer = CoapRequestDeserializer::new(&packet, &registry).unwrap();
        assert_eq!(deserializer.spec_version(&registry), Err(CodecError::InvalidSpecVersion));
        assert_eq!(deserializer.deserialize_binary(&registry), Err(CodecError::InvalidSpecVersion));
    }
}

#[test]
fn missing_spec_version() {
    let registry = AttributeOptionRegistry::base_4200();
    let packet = packet_with(&[(4200, b"1")], b"");
    let deserializer = CoapRequestDeserializer::new(&packet, &registry).unwrap();
    assert_eq!(deserializer.spec_version(&registry), Err(CodecError::MissingRequiredAttribute));
    let present = packet_with(&[(4202, b"0.3")], b"");
    let deserializer = CoapRequestDeserializer::new(&present, &registry).unwrap();
    assert_eq!(deserializer.spec_version(&registry), Ok(SpecVersion::V03));
}

#[test]
fn option_without_values_counts_as_absent() {
    let registry = AttributeOptionRegistry::base_4200();
    let mut packet = packet_with(&[(4202, b"1.0"), (4200, b"1"), (12, b"application/cloudevents+json")], b"");
    packet.clear_option(CoapOption::ContentFormat);
    packet.clear_option(CoapOption::Unknown(4200));
    let deserializer = CoapRequestDeserializer::new(&packet, &registry).unwrap();
    assert_eq!(deserializer.encoding(&registry), Encoding::Binary);
    let event = deserializer.deserialize_binary(&registry).unwrap();
    assert_eq!(event.id, None);
    assert_eq!(event.datacontenttype, None);
    packet.clear_option(CoapOption::Unknown(4202));
    let deserializer = CoapRequestDeserializer::new(&packet, &registry).unwrap();
    assert_eq!(deserializer.encoding(&registry), Encoding::Unknown);
}

#[test]
fn structured_decode_hands_out_the_payload() {
    let registry = AttributeOptionRegistry::base_4200();
    let json = br#"{"specversion":"1.0","id":"1","source":"urn:x","type":"example"}"#;
    let packet = packet_with(&[(12, b"application/cloudevents+json")], json);
    let deserializer = CoapRequestDeserializer::new(&packet, &registry).unwrap();
    assert_eq!(deserializer.deserialize_structured(&registry), Ok(json.to_vec()));
    let deserializer = CoapRequestDeserializer::new(&packet, &registry).unwrap();
    assert_eq!(deserializer.deserialize_binary(&registry), Err(CodecError::WrongEncoding));
    let deserializer = CoapRequestDeserializer::new(&packet, &registry).unwrap();
    assert_eq!(deserializer.into_event(&registry), Ok(Decoded::Structured(json.to_vec())));
}

#[test]
fn structured_decode_equals_parsing_the_json_directly() {
    let registry = AttributeOptionRegistry::base_4200();
    let json = br#"{"specversion":"1.0","id":"1","source":"urn:x","type":"example","datacontenttype":"text/plain","data":"hello"}"#;
    let packet = packet_with(&[(12, b"application/cloudevents+json")], json);
    let payload = CoapRequestDeserializer::new(&packet, &registry)
        .unwrap()
        .deserialize_structured(&registry)
        .unwrap();
    let decoded: cloudevents::Event = serde_json::from_slice(&payload).unwrap();
    let direct: cloudevents::Event = serde_json::from_slice(json).unwrap();
    assert_eq!(decoded, direct);
}

#[test]
fn structured_decode_refuses_a_binary_message() {
    let registry = AttributeOptionRegistry::base_4200();
    let packet = packet_with(&[(4202, b"1.0")], b"{}");
    let deserializer = CoapRequestDeserializer::new(&packet, &registry).unwrap();
    assert_eq!(deserializer.deserialize_structured(&registry), Err(CodecError::WrongEncoding));
}

#[test]
fn into_event_reads_a_binary_message() {
    let registry = AttributeOptionRegistry::base_4200();
    let packet = packet_with(&[(4202, b"1.0"), (4200, b"7")], b"d");
    let decoded = CoapRequestDeserializer::new(&packet, &registry).unwrap().into_event(&registry);
    let mut expected = Event::new(SpecVersion::V10);
    expected.id = Some("7".to_string());
    expected.data = Some(b"d".to_vec());
    assert_eq!(decoded, Ok(Decoded::Binary(expected)));
}
