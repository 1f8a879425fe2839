//! Writing an event into a packet.

use crate::coap_request::{CoapRequestDeserializer, Decoded};
use crate::event::{
    extensions_view, text_view, version_text, CodecError, EncodePolicy, Event, EventView,
    SpecVersion, DEFAULT_CONTENT_FORMAT, DEFAULT_TYPE_MARKER,
};
use crate::headers::{
    attribute_name, attribute_named, AttributeOptionRegistry, CoreAttribute,
    CLOUDEVENTS_JSON_HEADER, CONTENT_FORMAT_OPTION, URI_PATH_OPTION,
};
use crate::packet::{
    add_option, emit, get_option, new_packet, option_numbers, packet_options, packet_payload,
    set_payload, OptionSet,
};
use crate::text::{
    encode_text, option_number_named, parse_option_number, segments_view, split_path,
    split_segments,
};
use crate::CoapRequestExt;
use coap_lite::Packet;
use vstd::prelude::*;
use vstd::utf8::*;

verus! {

/// What a message under construction holds.
pub struct MessageView {
    /// The options written so far.
    pub options: OptionSet,
    /// The payload.
    pub payload: Seq<u8>,
    /// The option numbers that no extension may take any more.
    pub used: Set<u16>,
    /// The registry that the message is written with.
    pub registry: AttributeOptionRegistry,
    /// The policy that the message is written with.
    pub policy: EncodePolicy,
}

/// An option set with more values under `number`, in the order given.
pub open spec fn emit_all(options: OptionSet, number: u16, values: Seq<Seq<u8>>) -> OptionSet
    decreases values.len(),
{
    if values.len() == 0 {
        options
    } else {
        emit(emit_all(options, number, values.drop_last()), number, values.last())
    }
}

/// The option numbers that belong to core attributes.
pub open spec fn reserved_numbers(registry: AttributeOptionRegistry) -> Set<u16> {
    Set::new(|n: u16| registry.attribute_at(n) is Some)
}

/// The message that nothing has been written to.
pub open spec fn empty_message(
    registry: AttributeOptionRegistry,
    policy: EncodePolicy,
) -> MessageView {
    MessageView {
        options: OptionSet::empty(),
        payload: Seq::empty(),
        used: reserved_numbers(registry),
        registry,
        policy,
    }
}

/// The message with the spec version written to its option.
pub open spec fn with_spec_version(message: MessageView, version: SpecVersion) -> MessageView {
    MessageView {
        options: emit(
            message.options,
            message.registry.option_of(CoreAttribute::SpecVersion),
            encode_utf8(version_text(version)),
        ),
        ..message
    }
}

/// The option values that carry the value of a core attribute: its bytes or,
/// for an attribute that travels in the path option, the pieces of its bytes
/// between the `/`.
pub open spec fn attribute_values(
    registry: AttributeOptionRegistry,
    attribute: CoreAttribute,
    value: Seq<char>,
) -> Seq<Seq<u8>> {
    if registry.is_path_option(registry.option_of(attribute)) {
        split_path(encode_utf8(value))
    } else {
        seq![encode_utf8(value)]
    }
}

/// The message with an attribute written to the option that the registry
/// has for its name.
pub open spec fn with_attribute(message: MessageView, name: Seq<char>, value: Seq<char>) -> Result<
    MessageView,
    CodecError,
> {
    match attribute_named(name) {
        Some(attribute) => Ok(
            MessageView {
                options: emit_all(
                    message.options,
                    message.registry.option_of(attribute),
                    attribute_values(message.registry, attribute, value),
                ),
                ..message
            },
        ),
        None => Err(CodecError::UnknownAttribute),
    }
}

/// The message with what its policy adds: under
/// [`EncodePolicy::InjectDefaults`], a content format if none has been
/// written, and then a type marker if the option of `type` has no value yet.
pub open spec fn with_defaults(message: MessageView) -> MessageView {
    match message.policy {
        EncodePolicy::Strict => message,
        EncodePolicy::InjectDefaults => {
            let first = if message.options.contains_key(CONTENT_FORMAT_OPTION) {
                message.options
            } else {
                emit(message.options, CONTENT_FORMAT_OPTION, encode_utf8(DEFAULT_CONTENT_FORMAT@))
            };
            let type_option = message.registry.option_of(CoreAttribute::Type);
            let second = if first.contains_key(type_option) {
                first
            } else {
                emit(first, type_option, encode_utf8(DEFAULT_TYPE_MARKER@))
            };
            MessageView { options: second, ..message }
        },
    }
}

/// The message with an extension written to the option that its name stands
/// for.
pub open spec fn with_extension(message: MessageView, name: Seq<char>, value: Seq<char>) -> Result<
    MessageView,
    CodecError,
> {
    match option_number_named(name) {
        None => Err(CodecError::InvalidExtensionName),
        Some(number) => if message.used.contains(number) {
            Err(CodecError::ReservedOrDuplicateOption)
        } else {
            Ok(
                MessageView {
                    options: emit(message.options, number, encode_utf8(value)),
                    used: message.used.insert(number),
                    ..message
                },
            )
        },
    }
}

/// The message with the given payload.
pub open spec fn with_data(message: MessageView, bytes: Seq<u8>) -> MessageView {
    MessageView { payload: bytes, ..message }
}

/// The message in structured mode: the content format names the CloudEvents
/// JSON media type, and the payload holds the event.
pub open spec fn with_structured_event(message: MessageView, bytes: Seq<u8>) -> MessageView {
    MessageView {
        options: emit(
            message.options,
            CONTENT_FORMAT_OPTION,
            encode_utf8(CLOUDEVENTS_JSON_HEADER@),
        ),
        payload: bytes,
        ..message
    }
}

/// The name under which a version has the attribute that the registry calls
/// `attribute`: version 0.3 says `schemaurl` for `dataschema`.
pub open spec fn wire_name(version: SpecVersion, attribute: CoreAttribute) -> Seq<char> {
    if version == SpecVersion::V03 && attribute == CoreAttribute::DataSchema {
        "schemaurl"@
    } else {
        attribute_name(attribute)
    }
}

/// Writes a core attribute of an event, if the event has it and nothing has
/// failed before.
pub open spec fn then_attribute(
    before: Result<MessageView, CodecError>,
    version: SpecVersion,
    attribute: CoreAttribute,
    value: Option<Seq<char>>,
) -> Result<MessageView, CodecError> {
    match (before, value) {
        (Ok(message), Some(text)) => with_attribute(message, wire_name(version, attribute), text),
        _ => before,
    }
}

/// Writes the extensions of an event in their order, up to the first that
/// fails.
pub open spec fn then_extensions(
    before: Result<MessageView, CodecError>,
    extensions: Seq<(Seq<char>, Seq<char>)>,
) -> Result<MessageView, CodecError>
    decreases extensions.len(),
{
    if extensions.len() == 0 {
        before
    } else {
        match then_extensions(before, extensions.drop_last()) {
            Ok(message) => with_extension(message, extensions.last().0, extensions.last().1),
            Err(error) => Err(error),
        }
    }
}

/// Writes the content type, what the policy adds, and then `id`, `type`,
/// `source`, `dataschema`, `subject` and `time`, each if the event has it, up
/// to the first that fails.
pub open spec fn then_attributes(started: MessageView, event: EventView) -> Result<
    MessageView,
    CodecError,
> {
    let version = event.specversion;
    let typed = then_attribute(
        Ok(started),
        version,
        CoreAttribute::DataContentType,
        event.datacontenttype,
    );
    let defaulted = match typed {
        Ok(message) => Ok(with_defaults(message)),
        Err(error) => Err(error),
    };
    let a = then_attribute(defaulted, version, CoreAttribute::Id, event.id);
    let b = then_attribute(a, version, CoreAttribute::Type, event.ty);
    let c = then_attribute(b, version, CoreAttribute::Source, event.source);
    let d = then_attribute(c, version, CoreAttribute::DataSchema, event.dataschema);
    let e = then_attribute(d, version, CoreAttribute::Subject, event.subject);
    then_attribute(e, version, CoreAttribute::Time, event.time)
}

/// Attaches the data of an event, if it has data and nothing has failed
/// before.
pub open spec fn then_data(
    before: Result<MessageView, CodecError>,
    data: Option<Seq<u8>>,
) -> Result<MessageView, CodecError> {
    match (before, data) {
        (Ok(message), Some(bytes)) => Ok(with_data(message, bytes)),
        _ => before,
    }
}

/// The message that an event is written to in binary mode, or the error that
/// stops the writing.
///
/// The steps, in order: the spec version; the content type; what the policy
/// adds; `id`, `type`, `source`, `dataschema`, `subject` and `time`, each if
/// the event has it; the extensions; the data.
pub open spec fn encode(
    event: EventView,
    registry: AttributeOptionRegistry,
    policy: EncodePolicy,
) -> Result<MessageView, CodecError> {
    let started = with_spec_version(empty_message(registry, policy), event.specversion);
    then_data(
        then_extensions(then_attributes(started, event), event.extensions),
        event.data,
    )
}

/// Once an extension has failed, the extensions behind it change nothing.
pub proof fn lemma_extensions_stop(
    before: Result<MessageView, CodecError>,
    extensions: Seq<(Seq<char>, Seq<char>)>,
    k: int,
)
    requires
        0 <= k <= extensions.len(),
        then_extensions(before, extensions.take(k)) is Err,
    ensures
        then_extensions(before, extensions) == then_extensions(before, extensions.take(k)),
    decreases extensions.len() - k,
{
    if k < extensions.len() {
        assert(extensions.take(k + 1).drop_last() =~= extensions.take(k));
        lemma_extensions_stop(before, extensions, k + 1);
    } else {
        assert(extensions.take(k) =~= extensions);
    }
}

/// Whether a list of option numbers is in strictly ascending order.
spec fn sorted(list: Seq<u16>) -> bool {
    forall|i: int, j: int| 0 <= i < j < list.len() ==> list[i] < list[j]
}

/// The place of `number` in a sorted list: the first index whose entry is not
/// below it.
fn lower_bound(list: &Vec<u16>, number: u16) -> (place: usize)
    requires
        sorted(list@),
    ensures
        place <= list@.len(),
        forall|k: int| 0 <= k < place ==> list@[k] < number,
        forall|k: int| place <= k < list@.len() ==> list@[k] >= number,
{
    let mut low: usize = 0;
    let mut high: usize = list.len();
    while low < high
        invariant
            low <= high <= list@.len(),
            sorted(list@),
            forall|k: int| 0 <= k < low ==> list@[k] < number,
            forall|k: int| high <= k < list@.len() ==> list@[k] >= number,
        decreases high - low,
    {
        let middle = low + (high - low) / 2;
        if list[middle] < number {
            low = middle + 1;
        } else {
            high = middle;
        }
    }
    low
}

/// Puts `number` at its place in a sorted list, unless it is there already.
/// Says whether it was new.
fn take_number(list: &mut Vec<u16>, number: u16) -> (fresh: bool)
    requires
        sorted(old(list)@),
    ensures
        sorted(final(list)@),
        fresh == !old(list)@.contains(number),
        !fresh ==> final(list)@ == old(list)@,
        forall|n: u16| final(list)@.contains(n) == (old(list)@.contains(n) || n == number),
{
    let ghost before = list@;
    let place = lower_bound(list, number);
    if place < list.len() && list[place] == number {
        assert(before.contains(number));
        return false;
    }
    assert(!before.contains(number));
    list.insert(place, number);
    proof {
        assert(list@ == before.insert(place as int, number));
        assert(list@[place as int] == number);
        assert forall|i: int, j: int| 0 <= i < j < list@.len() implies list@[i] < list@[j] by {
            let a = if i < place {
                i
            } else {
                i - 1
            };
            let b = if j < place {
                j
            } else {
                j - 1
            };
            if i != place && j != place {
                assert(before[a] < before[b]);
            }
        }
        assert forall|n: u16| list@.contains(n) == (before.contains(n) || n == number) by {
            if before.contains(n) {
                let k = choose|k: int| 0 <= k < before.len() && before[k] == n;
                if k < place {
                    assert(list@[k] == n);
                } else {
                    assert(list@[k + 1] == n);
                }
            }
            if list@.contains(n) && n != number {
                let k = choose|k: int| 0 <= k < list@.len() && list@[k] == n;
                if k < place {
                    assert(before[k] == n);
                } else {
                    assert(before[k - 1] == n);
                }
            }
        }
    }
    true
}

/// A packet that an event is being written to, with the option numbers that
/// are taken.
pub struct CoapMessage {
    coap_message: Packet,
    options: Vec<u16>,
    registry: AttributeOptionRegistry,
    policy: EncodePolicy,
}

impl View for CoapMessage {
    type V = MessageView;

    closed spec fn view(&self) -> MessageView {
        MessageView {
            options: packet_options(self.coap_message),
            payload: packet_payload(self.coap_message),
            used: Set::new(|n: u16| self.options@.contains(n)),
            registry: self.registry,
            policy: self.policy,
        }
    }
}

impl CoapMessage {
    #[verifier::type_invariant]
    spec fn wf(self) -> bool {
        &&& sorted(self.options@)
        &&& self.registry.wf()
        &&& forall|n: u16| self.registry.attribute_at(n) is Some ==> self.options@.contains(n)
    }

    /// A message without options and payload.  The numbers of the registry's
    /// attributes are taken from the start.
    pub fn new(registry: AttributeOptionRegistry, policy: EncodePolicy) -> (message: CoapMessage)
        ensures
            message@ == empty_message(registry, policy),
    {
        proof {
            use_type_invariant(&registry);
        }
        let base = registry.custom_base();
        let mut options: Vec<u16> = Vec::new();
        if registry.subject_on_path() {
            options.push(URI_PATH_OPTION);
        }
        options.push(CONTENT_FORMAT_OPTION);
        options.push(base);
        options.push(base + 1);
        options.push(base + 2);
        options.push(base + 3);
        options.push(base + 4);
        if !registry.subject_on_path() {
            options.push(base + 5);
        }
        options.push(base + 6);
        proof {
            let list = options@;
            assert(list.len() == 8);
            assert(forall|n: u16|
                list.contains(n) ==> n == list[0] || n == list[1] || n == list[2] || n == list[3]
                    || n == list[4] || n == list[5] || n == list[6] || n == list[7]);
            assert(list.contains(list[0]) && list.contains(list[1]) && list.contains(list[2])
                && list.contains(list[3]) && list.contains(list[4]) && list.contains(list[5])
                && list.contains(list[6]) && list.contains(list[7]));
            assert(Set::new(|n: u16| list.contains(n)) =~= reserved_numbers(registry));
        }
        CoapMessage { coap_message: new_packet(), options, registry, policy }
    }

    /// The adapter over a packet that has been received.  The option numbers
    /// of the packet count as taken, beside those of the registry's
    /// attributes.
    pub fn from_packet(
        packet: Packet,
        registry: AttributeOptionRegistry,
        policy: EncodePolicy,
    ) -> (message: CoapMessage)
        ensures
            message@ == (MessageView {
                options: packet_options(packet),
                payload: packet_payload(packet),
                used: reserved_numbers(registry).union(packet_options(packet).dom()),
                registry,
                policy,
            }),
    {
        let fresh = CoapMessage::new(registry, policy);
        proof {
            use_type_invariant(&fresh);
        }
        let CoapMessage { coap_message: _, mut options, registry, policy } = fresh;
        let ghost reserved = options@;
        let numbers = option_numbers(&packet);
        let mut i: usize = 0;
        while i < numbers.len()
            invariant
                i <= numbers@.len(),
                sorted(options@),
                forall|n: u16|
                    #![trigger options@.contains(n)]
                    options@.contains(n) == (reserved.contains(n) || numbers@.take(
                        i as int,
                    ).contains(n)),
            decreases numbers@.len() - i,
        {
            let ghost before = options@;
            take_number(&mut options, numbers[i]);
            proof {
                let head = numbers@.take(i as int);
                let next = numbers@.take(i + 1);
                assert(next =~= head.push(numbers@[i as int]));
                assert forall|n: u16| #![trigger options@.contains(n)]
                    options@.contains(n) == (reserved.contains(n) || next.contains(n)) by {
                    if next.contains(n) {
                        let k = choose|k: int| 0 <= k < next.len() && next[k] == n;
                        if k < i {
                            assert(head[k] == n);
                        }
                    }
                    if head.contains(n) {
                        let k = choose|k: int| 0 <= k < head.len() && head[k] == n;
                        assert(next[k] == n);
                    }
                    if n == numbers@[i as int] {
                        assert(next[i as int] == n);
                    }
                    assert(options@.contains(n) == (before.contains(n) || n == numbers@[i as int]));
                    assert(before.contains(n) == (reserved.contains(n) || head.contains(n)));
                }
            }
            i += 1;
        }
        proof {
            assert(numbers@.take(i as int) =~= numbers@);
            assert forall|n: u16| registry.attribute_at(n) is Some implies options@.contains(
                n,
            ) by {
                assert(reserved.contains(n));
            }
            assert(Set::new(|n: u16| options@.contains(n)) =~= reserved_numbers(registry).union(
                packet_options(packet).dom(),
            ));
        }
        CoapMessage { coap_message: packet, options, registry, policy }
    }

    /// The packet as it has been written so far.
    pub fn packet(&self) -> (packet: &Packet)
        ensures
            packet_options(*packet) == self@.options,
            packet_payload(*packet) == self@.payload,
    {
        &self.coap_message
    }

    /// Hands out the packet.
    pub fn into_packet(self) -> (packet: Packet)
        ensures
            packet_options(packet) == self@.options,
            packet_payload(packet) == self@.payload,
    {
        self.coap_message
    }

    /// Writes the spec version to its option.
    pub fn set_spec_version(self, spec_version: SpecVersion) -> (message: CoapMessage)
        ensures
            message@ == with_spec_version(self@, spec_version),
    {
        proof {
            use_type_invariant(&self);
        }
        let CoapMessage { mut coap_message, options, registry, policy } = self;
        let text = spec_version.text();
        add_option(
            &mut coap_message,
            registry.option_number(CoreAttribute::SpecVersion),
            encode_text(text.as_str()),
        );
        CoapMessage { coap_message, options, registry, policy }
    }

    /// Writes a core attribute to the option that the registry has for its
    /// name.  An attribute that travels in the path option is written as one
    /// value for each piece between the `/` of its text.
    pub fn set_attribute(self, name: &str, value: &str) -> (message: Result<
        CoapMessage,
        CodecError,
    >)
        ensures
            match with_attribute(self@, name@, value@) {
                Ok(view) => message is Ok && message->Ok_0@ == view,
                Err(error) => message is Err && message->Err_0 == error,
            },
    {
        proof {
            use_type_invariant(&self);
        }
        let attribute = match CoreAttribute::from_name(name) {
            Some(attribute) => attribute,
            None => {
                return Err(CodecError::UnknownAttribute);
            },
        };
        let CoapMessage { mut coap_message, options, registry, policy } = self;
        let number = registry.option_number(attribute);
        if registry.path_option(number) {
            let segments = split_segments(value.as_bytes());
            let ghost start = packet_options(coap_message);
            let ghost payload = packet_payload(coap_message);
            let mut i: usize = 0;
            proof {
                assert(segments_view(segments@).take(0) =~= Seq::<Seq<u8>>::empty());
            }
            while i < segments.len()
                invariant
                    i <= segments@.len(),
                    packet_payload(coap_message) == payload,
                    packet_options(coap_message) == emit_all(
                        start,
                        number,
                        segments_view(segments@).take(i as int),
                    ),
                decreases segments@.len() - i,
            {
                proof {
                    let now = segments_view(segments@).take(i + 1);
                    assert(now.drop_last() =~= segments_view(segments@).take(i as int));
                    assert(now.last() == segments@[i as int]@);
                }
                add_option(&mut coap_message, number, segments[i].clone());
                i += 1;
            }
            proof {
                assert(segments_view(segments@).take(i as int) =~= segments_view(segments@));
            }
        } else {
            let ghost start = packet_options(coap_message);
            add_option(&mut coap_message, number, encode_text(value));
            proof {
                let values = seq![encode_utf8(value@)];
                assert(values.drop_last() =~= Seq::<Seq<u8>>::empty());
                assert(emit_all(start, number, values.drop_last()) == start);
                assert(emit_all(start, number, values) == emit(start, number, values.last()));
            }
        }
        Ok(CoapMessage { coap_message, options, registry, policy })
    }

    /// Adds what the policy of the message asks for.
    pub fn inject_defaults(self) -> (message: CoapMessage)
        ensures
            message@ == with_defaults(self@),
    {
        proof {
            use_type_invariant(&self);
        }
        let CoapMessage { mut coap_message, options, registry, policy } = self;
        match policy {
            EncodePolicy::Strict => {},
            EncodePolicy::InjectDefaults => {
                if get_option(&coap_message, CONTENT_FORMAT_OPTION).is_none() {
                    add_option(
                        &mut coap_message,
                        CONTENT_FORMAT_OPTION,
                        encode_text(DEFAULT_CONTENT_FORMAT),
                    );
                }
                let type_option = registry.option_number(CoreAttribute::Type);
                if get_option(&coap_message, type_option).is_none() {
                    add_option(&mut coap_message, type_option, encode_text(DEFAULT_TYPE_MARKER));
                }
            },
        }
        CoapMessage { coap_message, options, registry, policy }
    }

    /// Writes an extension to the option that its name stands for.  The name
    /// has to be an option number, and the number must not belong to a core
    /// attribute nor have been taken by an earlier extension.
    pub fn set_extension(self, name: &str, value: &str) -> (message: Result<
        CoapMessage,
        CodecError,
    >)
        ensures
            match with_extension(self@, name@, value@) {
                Ok(view) => message is Ok && message->Ok_0@ == view,
                Err(error) => message is Err && message->Err_0 == error,
            },
    {
        proof {
            use_type_invariant(&self);
        }
        let number = match parse_option_number(name) {
            Some(number) => number,
            None => {
                return Err(CodecError::InvalidExtensionName);
            },
        };
        let CoapMessage { mut coap_message, mut options, registry, policy } = self;
        let ghost before = options@;
        if !take_number(&mut options, number) {
            return Err(CodecError::ReservedOrDuplicateOption);
        }
        proof {
            assert(Set::new(|n: u16| options@.contains(n)) =~= Set::new(
                |n: u16| before.contains(n),
            ).insert(number));
        }
        add_option(&mut coap_message, number, encode_text(value));
        proof {
            assert forall|n: u16| registry.attribute_at(n) is Some implies options@.contains(
                n,
            ) by {
                assert(before.contains(n));
            }
        }
        Ok(CoapMessage { coap_message, options, registry, policy })
    }

    /// Ends the message with the data of the event as its payload.
    pub fn end_with_data(self, bytes: Vec<u8>) -> (message: CoapMessage)
        ensures
            message@ == with_data(self@, bytes@),
    {
        proof {
            use_type_invariant(&self);
        }
        let CoapMessage { mut coap_message, options, registry, policy } = self;
        set_payload(&mut coap_message, bytes);
        CoapMessage { coap_message, options, registry, policy }
    }

    /// Ends the message of an event without data.
    pub fn end(self) -> (message: CoapMessage)
        ensures
            message@ == self@,
    {
        self
    }

    /// Writes a core attribute of an event under the name that the version
    /// of the event has for it, if the event has the attribute.
    fn write_attribute(
        self,
        version: SpecVersion,
        attribute: CoreAttribute,
        value: &Option<String>,
    ) -> (message: Result<CoapMessage, CodecError>)
        ensures
            match then_attribute(Ok(self@), version, attribute, text_view(*value)) {
                Ok(view) => message is Ok && message->Ok_0@ == view,
                Err(error) => message is Err && message->Err_0 == error,
            },
    {
        match value {
            Some(text) => {
                let name = match (version, attribute) {
                    (SpecVersion::V03, CoreAttribute::DataSchema) => "schemaurl",
                    _ => attribute.name(),
                };
                self.set_attribute(name, text.as_str())
            },
            None => Ok(self),
        }
    }

    /// Writes the content type, what the policy adds, and the other core
    /// attributes of an event.
    fn write_attributes(self, event: &Event) -> (message: Result<CoapMessage, CodecError>)
        ensures
            match then_attributes(self@, event@) {
                Ok(view) => message is Ok && message->Ok_0@ == view,
                Err(error) => message is Err && message->Err_0 == error,
            },
    {
        let version = event.specversion;
        let message = self.write_attribute(
            version,
            CoreAttribute::DataContentType,
            &event.datacontenttype,
        )?;
        let message = message.inject_defaults();
        let message = message.write_attribute(version, CoreAttribute::Id, &event.id)?;
        let message = message.write_attribute(version, CoreAttribute::Type, &event.ty)?;
        let message = message.write_attribute(version, CoreAttribute::Source, &event.source)?;
        let message = message.write_attribute(
            version,
            CoreAttribute::DataSchema,
            &event.dataschema,
        )?;
        let message = message.write_attribute(version, CoreAttribute::Subject, &event.subject)?;
        message.write_attribute(version, CoreAttribute::Time, &event.time)
    }

    /// Writes an event in binary mode, with the given registry and policy.
    ///
    /// The steps, in order: the spec version; the content type; what the
    /// policy adds; `id`, `type`, `source`, `dataschema`, `subject` and
    /// `time`, each if the event has it; the extensions; the data.  The first
    /// step that fails ends the writing, and nothing is handed out.
    pub fn from_event(
        event: Event,
        registry: AttributeOptionRegistry,
        policy: EncodePolicy,
    ) -> (message: Result<CoapMessage, CodecError>)
        ensures
            match encode(event@, registry, policy) {
                Ok(view) => message is Ok && message->Ok_0@ == view,
                Err(error) => message is Err && message->Err_0 == error,
            },
    {
        let started = CoapMessage::new(registry, policy).set_spec_version(event.specversion);
        let ghost extensions = extensions_view(event.extensions@);
        let ghost attributes = then_attributes(started@, event@);
        let mut message = match started.write_attributes(&event) {
            Ok(message) => message,
            Err(error) => {
                proof {
                    assert(extensions.take(0) =~= Seq::<(Seq<char>, Seq<char>)>::empty());
                    lemma_extensions_stop(attributes, extensions, 0);
                }
                return Err(error);
            },
        };
        let mut i: usize = 0;
        proof {
            assert(extensions.take(0) =~= Seq::<(Seq<char>, Seq<char>)>::empty());
        }
        while i < event.extensions.len()
            invariant
                i <= event.extensions@.len(),
                extensions == extensions_view(event.extensions@),
                encode(event@, registry, policy) == then_data(
                    then_extensions(attributes, extensions),
                    event@.data,
                ),
                then_extensions(attributes, extensions.take(i as int)) == Ok::<
                    MessageView,
                    CodecError,
                >(message@),
            decreases event.extensions@.len() - i,
        {
            proof {
                assert(extensions.take(i + 1).drop_last() =~= extensions.take(i as int));
                assert(extensions.take(i + 1).last() == (
                    event.extensions@[i as int].name@,
                    event.extensions@[i as int].value@,
                ));
            }
            let extension = &event.extensions[i];
            message = match message.set_extension(
                extension.name.as_str(),
                extension.value.as_str(),
            ) {
                Ok(message) => message,
                Err(error) => {
                    proof {
                        lemma_extensions_stop(attributes, extensions, i + 1);
                    }
                    return Err(error);
                },
            };
            i += 1;
        }
        proof {
            assert(extensions.take(i as int) =~= extensions);
        }
        match event.data {
            Some(bytes) => Ok(message.end_with_data(bytes)),
            None => Ok(message.end()),
        }
    }

    /// Writes an event in structured mode: `bytes` hold the event as JSON.
    pub fn set_structured_event(self, bytes: Vec<u8>) -> (message: CoapMessage)
        ensures
            message@ == with_structured_event(self@, bytes@),
    {
        proof {
            use_type_invariant(&self);
        }
        let CoapMessage { mut coap_message, options, registry, policy } = self;
        add_option(&mut coap_message, CONTENT_FORMAT_OPTION, encode_text(CLOUDEVENTS_JSON_HEADER));
        set_payload(&mut coap_message, bytes);
        CoapMessage { coap_message, options, registry, policy }
    }
}

impl CoapRequestExt for CoapMessage {
    fn to_event(&self) -> (decoded: Result<Decoded, CodecError>) {
        proof {
            use_type_invariant(self);
        }
        match CoapRequestDeserializer::new(&self.coap_message, &self.registry) {
            Ok(deserializer) => deserializer.into_event(&self.registry),
            Err(error) => Err(error),
        }
    }

    fn from_event(
        event: Event,
        registry: AttributeOptionRegistry,
        policy: EncodePolicy,
    ) -> (message: Result<Self, CodecError>) {
        CoapMessage::from_event(event, registry, policy)
    }
}

} // verus!
