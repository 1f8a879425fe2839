use cloudevents_coap::event::{Event, SpecVersion};
use cloudevents_coap::headers::{
    attributes_to_options, options_to_attributes, AttributeOptionRegistry, CoreAttribute,
    CLOUDEVENTS_JSON_HEADER, CONTENT_FORMAT_OPTION, URI_PATH_OPTION,
};

const ALL: [CoreAttribute; 8] = [
    CoreAttribute::Id,
    CoreAttribute::Source,
    CoreAttribute::SpecVersion,
    CoreAttribute::Type,
    CoreAttribute::DataContentType,
    CoreAttribute::DataSchema,
    CoreAttribute::Subject,
    CoreAttribute::Time,
];

#[test]
fn wire_constants() {
    assert_eq!(CLOUDEVENTS_JSON_HEADER, "application/cloudevents+json");
    assert_eq!(CONTENT_FORMAT_OPTION, 12);
    assert_eq!(URI_PATH_OPTION, 11);
}

#[test]
fn base_4200_numbers() {
    let registry = AttributeOptionRegistry::base_4200();
    assert_eq!(registry.custom_base(), 4200);
    assert!(!registry.subject_on_path());
    assert_eq!(registry.option_for("id"), Some(4200));
    assert_eq!(registry.option_for("source"), Some(4201));
    assert_eq!(registry.option_for("specversion"), Some(4202));
    assert_eq!(registry.option_for("type"), Some(4203));
    assert_eq!(registry.option_for("datacontenttype"), Some(12));
    assert_eq!(registry.option_for("dataschema"), Some(4204));
    assert_eq!(registry.option_for("subject"), Some(4205));
    assert_eq!(registry.option_for("time"), Some(4206));
}

#[test]
fn base_2048_numbers() {
    let registry = AttributeOptionRegistry::base_2048();
    assert_eq!(registry.custom_base(), 2048);
    assert_eq!(registry.option_for("id"), Some(2048));
    assert_eq!(registry.option_for("source"), Some(2049));
    assert_eq!(registry.option_for("specversion"), Some(2050));
    assert_eq!(registry.option_for("type"), Some(2051));
    assert_eq!(registry.option_for("datacontenttype"), Some(12));
    assert_eq!(registry.option_for("dataschema"), Some(2052));
    assert_eq!(registry.option_for("subject"), Some(2053));
    assert_eq!(registry.option_for("time"), Some(2054));
}

#[test]
fn path_subject_moves_only_subject() {
    let plain = AttributeOptionRegistry::base_4200();
    let path = plain.with_path_subject();
    assert!(path.subject_on_path());
    assert_eq!(path.custom_base(), 4200);
    assert_eq!(path.option_for("subject"), Some(11));
    assert_eq!(path.attribute_for(11), Some("subject"));
    assert_eq!(path.attribute_for(4205), None);
    assert_eq!(plain.attribute_for(11), None);
    for attribute in ALL {
        if attribute != CoreAttribute::Subject {
            assert_eq!(path.option_number(attribute), plain.option_number(attribute));
        }
    }
}

#[test]
fn unknown_names_and_numbers() {
    let registry = AttributeOptionRegistry::base_4200();
    assert_eq!(registry.option_for("schemaurl"), None);
    assert_eq!(registry.option_for("ID"), None);
    assert_eq!(registry.option_for(""), None);
    assert_eq!(registry.option_for("idx"), None);
    assert_eq!(registry.attribute_for(0), None);
    assert_eq!(registry.attribute_for(4199), None);
    assert_eq!(registry.attribute_for(4207), None);
    assert_eq!(registry.attribute_for(2048), None);
    assert_eq!(registry.attribute_for(65535), None);
}

#[test]
fn lookups_are_inverse_of_each_other() {
    for registry in [
        AttributeOptionRegistry::base_2048(),
        AttributeOptionRegistry::base_4200(),
        AttributeOptionRegistry::base_2048().with_path_subject(),
        AttributeOptionRegistry::base_4200().with_path_subject(),
    ] {
        for attribute in ALL {
            let number = registry.option_number(attribute);
            assert_eq!(registry.attribute_of(number), Some(attribute));
            assert_eq!(registry.attribute_for(number), Some(attribute.name()));
            assert_eq!(registry.option_for(attribute.name()), Some(number));
            assert_eq!(CoreAttribute::from_name(attribute.name()), Some(attribute));
        }
        let mut found = 0;
        for number in 0..=u16::MAX {
            if let Some(attribute) = registry.attribute_of(number) {
                assert_eq!(registry.option_number(attribute), number);
                found += 1;
            }
        }
        assert_eq!(found, 8);
    }
}

#[test]
fn no_two_attributes_share_a_number() {
    let registry = AttributeOptionRegistry::base_4200().with_path_subject();
    for a in ALL {
        for b in ALL {
            if a != b {
                assert_ne!(registry.option_number(a), registry.option_number(b));
            }
        }
    }
}

#[test]
fn content_type_alone_uses_content_format() {
    let registry = AttributeOptionRegistry::base_2048();
    for attribute in ALL {
        assert_eq!(
            registry.option_number(attribute) == CONTENT_FORMAT_OPTION,
            attribute == CoreAttribute::DataContentType
        );
    }
    assert!(!registry.attribute_bearing(CONTENT_FORMAT_OPTION));
}

#[test]
fn attribute_bearing_numbers() {
    let plain = AttributeOptionRegistry::base_2048();
    assert!(plain.attribute_bearing(2048));
    assert!(plain.attribute_bearing(65535));
    assert!(!plain.attribute_bearing(2047));
    assert!(!plain.attribute_bearing(11));
    assert!(!plain.path_option(11));
    let path = plain.with_path_subject();
    assert!(path.attribute_bearing(11));
    assert!(path.path_option(11));
    assert!(!path.path_option(12));
    assert!(!path.attribute_bearing(10));
}

#[test]
fn with_base_checks_the_range() {
    assert!(AttributeOptionRegistry::with_base(12, false).is_none());
    assert!(AttributeOptionRegistry::with_base(0, true).is_none());
    assert!(AttributeOptionRegistry::with_base(65530, false).is_none());
    let low = AttributeOptionRegistry::with_base(13, false).unwrap();
    assert_eq!(low.option_for("time"), Some(19));
    let high = AttributeOptionRegistry::with_base(65529, true).unwrap();
    assert_eq!(high.option_for("time"), Some(65535));
    assert_eq!(high.option_for("subject"), Some(11));
    assert_eq!(
        AttributeOptionRegistry::with_base(4200, false),
        Some(AttributeOptionRegistry::base_4200())
    );
}

#[test]
fn options_to_attributes_table() {
    let table = options_to_attributes(&AttributeOptionRegistry::base_4200());
    assert_eq!(table.len(), 8);
    assert_eq!(table.get(&4200), Some(&"id"));
    assert_eq!(table.get(&4201), Some(&"source"));
    assert_eq!(table.get(&4202), Some(&"specversion"));
    assert_eq!(table.get(&4203), Some(&"type"));
    assert_eq!(table.get(&12), Some(&"datacontenttype"));
    assert_eq!(table.get(&4204), Some(&"dataschema"));
    assert_eq!(table.get(&4205), Some(&"subject"));
    assert_eq!(table.get(&4206), Some(&"time"));
    let path = options_to_attributes(&AttributeOptionRegistry::base_4200().with_path_subject());
    assert_eq!(path.len(), 8);
    assert_eq!(path.get(&11), Some(&"subject"));
    assert_eq!(path.get(&4205), None);
}

#[test]
fn attributes_to_options_table() {
    let table = attributes_to_options(&AttributeOptionRegistry::base_2048().with_path_subject());
    assert_eq!(
        table,
        vec![
            ("id", 2048),
            ("source", 2049),
            ("specversion", 2050),
            ("type", 2051),
            ("datacontenttype", 12),
            ("dataschema", 2052),
            ("subject", 11),
            ("time", 2054),
        ]
    );
}

#[test]
fn spec_version_texts() {
    assert_eq!(SpecVersion::parse("1.0"), Some(SpecVersion::V10));
    assert_eq!(SpecVersion::parse("0.3"), Some(SpecVersion::V03));
    assert_eq!(SpecVersion::parse("1.1"), None);
    assert_eq!(SpecVersion::parse(""), None);
    assert_eq!(SpecVersion::parse("1.0 "), None);
    assert_eq!(SpecVersion::V10.text(), "1.0");
    assert_eq!(SpecVersion::V03.text(), "0.3");
}

#[test]
fn spec_version_knows_its_attributes() {
    for attribute in ALL {
        assert!(SpecVersion::V10.knows(attribute));
        assert_eq!(SpecVersion::V03.knows(attribute), attribute != CoreAttribute::DataSchema);
    }
}

#[test]
fn event_completeness() {
    let mut event = Event::new(SpecVersion::V10);
    assert!(!event.is_complete());
    event.id = Some("1".to_string());
    event.source = Some("urn:x".to_string());
    assert!(!event.is_complete());
    event.ty = Some("example".to_string());
    assert!(event.is_complete());
    event.source = None;
    assert!(!event.is_complete());
}
