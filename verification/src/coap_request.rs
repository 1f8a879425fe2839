//! Reading an event out of a received packet.

use crate::event::{
    known_to, version_named, CodecError, Encoding, Event, EventView, Extension, SpecVersion,
};
use crate::headers::{
    AttributeOptionRegistry, CoreAttribute, CLOUDEVENTS_JSON_HEADER, CONTENT_FORMAT_OPTION,
};
use crate::packet::{
    get_option, get_payload, option_numbers, packet_options, packet_payload, OptionSet,
};
use crate::text::{
    decimal_text, decode_text, has_prefix, join_path, join_segments, join_texts, lemma_path_text,
    option_number_name, segment_texts, segments_view, text_of,
};
use coap_lite::Packet;
use vstd::prelude::*;
use vstd::utf8::*;

verus! {

/// Whether an option set has at least one value for option `number`.
pub open spec fn option_present(options: OptionSet, number: u16) -> bool {
    options.contains_key(number) && options[number].len() > 0
}

/// The text that an option stands for: the text of its latest value or, for
/// the path option of a profile that aggregates, the texts of all its values
/// with a `/` between each two neighbours.  `None` if a value that is read is
/// not valid UTF-8.
pub open spec fn option_text(
    options: OptionSet,
    registry: AttributeOptionRegistry,
    number: u16,
) -> Option<Seq<char>> {
    if registry.is_path_option(number) {
        if forall|i: int|
            0 <= i < options[number].len() ==> valid_utf8(#[trigger] options[number][i]) {
            Some(join_texts(segment_texts(options[number])))
        } else {
            None
        }
    } else {
        text_of(options[number].last())
    }
}

/// Whether every option that is present stands for text.
pub open spec fn options_are_text(options: OptionSet, registry: AttributeOptionRegistry) -> bool {
    forall|n: u16|
        option_present(options, n) ==> (#[trigger] option_text(options, registry, n)) is Some
}

/// The text of each option that is present.
pub open spec fn option_texts(options: OptionSet, registry: AttributeOptionRegistry) -> Map<
    u16,
    Seq<char>,
> {
    Map::new(
        |n: u16| option_present(options, n),
        |n: u16| option_text(options, registry, n)->0,
    )
}

/// The bytes that are decoded for an option: its latest value or, for the
/// path option of a profile that aggregates, all its values joined by `/`.
spec fn option_bytes(
    options: OptionSet,
    registry: AttributeOptionRegistry,
    number: u16,
) -> Seq<u8> {
    if registry.is_path_option(number) {
        join_path(options[number])
    } else {
        options[number].last()
    }
}

/// Decoding the joined segments of a path is decoding each segment.
proof fn lemma_option_text(options: OptionSet, registry: AttributeOptionRegistry, number: u16)
    ensures
        text_of(option_bytes(options, registry, number)) == option_text(options, registry, number),
{
    if registry.is_path_option(number) {
        lemma_path_text(options[number]);
    }
}

/// Whether a content format says that the payload holds the whole event: it
/// is the CloudEvents JSON media type, or begins with it.
pub open spec fn is_structured_format(format: Seq<char>) -> bool {
    CLOUDEVENTS_JSON_HEADER@.is_prefix_of(format)
}

/// The encoding of a message, read off the texts of its options: structured
/// if the content format says so; else binary if there is a spec version;
/// else unknown.
pub open spec fn detect_encoding(
    texts: Map<u16, Seq<char>>,
    registry: AttributeOptionRegistry,
) -> Encoding {
    if texts.contains_key(CONTENT_FORMAT_OPTION) && is_structured_format(
        texts[CONTENT_FORMAT_OPTION],
    ) {
        Encoding::Structured
    } else if texts.contains_key(registry.option_of(CoreAttribute::SpecVersion)) {
        Encoding::Binary
    } else {
        Encoding::Unknown
    }
}

/// The value that a binary message gives a core attribute: the text of its
/// option, if the option is there and the version defines the attribute.
pub open spec fn decoded_attribute(
    texts: Map<u16, Seq<char>>,
    registry: AttributeOptionRegistry,
    version: SpecVersion,
    attribute: CoreAttribute,
) -> Option<Seq<char>> {
    if texts.contains_key(registry.option_of(attribute)) && known_to(version, attribute) {
        Some(texts[registry.option_of(attribute)])
    } else {
        None
    }
}

/// Whether option `number` of a binary message is read as an extension: it
/// may carry an attribute, it is not the spec version, and the registry has
/// no attribute for it that the version defines.
pub open spec fn is_extension_option(
    registry: AttributeOptionRegistry,
    version: SpecVersion,
    number: u16,
) -> bool {
    &&& registry.is_attribute_bearing(number)
    &&& registry.attribute_at(number) != Some(CoreAttribute::SpecVersion)
    &&& match registry.attribute_at(number) {
        Some(attribute) => !known_to(version, attribute),
        None => true,
    }
}

/// The extensions that a binary message gives, from the options below
/// `bound`, in ascending order of option number.  Each is named by the
/// decimal text of its option number.
pub open spec fn extensions_below(
    texts: Map<u16, Seq<char>>,
    registry: AttributeOptionRegistry,
    version: SpecVersion,
    bound: nat,
) -> Seq<(Seq<char>, Seq<char>)>
    decreases bound,
{
    if bound == 0 {
        Seq::empty()
    } else {
        let number = (bound - 1) as u16;
        let below = extensions_below(texts, registry, version, (bound - 1) as nat);
        if texts.contains_key(number) && is_extension_option(registry, version, number) {
            below.push((decimal_text(number as nat), texts[number]))
        } else {
            below
        }
    }
}

/// One more than the greatest option number.
pub open spec fn option_number_limit() -> nat {
    u16::MAX as nat + 1
}

/// The event that a binary message of the given version carries.
pub open spec fn decoded_event(
    texts: Map<u16, Seq<char>>,
    payload: Seq<u8>,
    registry: AttributeOptionRegistry,
    version: SpecVersion,
) -> EventView {
    EventView {
        specversion: version,
        id: decoded_attribute(texts, registry, version, CoreAttribute::Id),
        source: decoded_attribute(texts, registry, version, CoreAttribute::Source),
        ty: decoded_attribute(texts, registry, version, CoreAttribute::Type),
        datacontenttype: decoded_attribute(
            texts,
            registry,
            version,
            CoreAttribute::DataContentType,
        ),
        dataschema: decoded_attribute(texts, registry, version, CoreAttribute::DataSchema),
        subject: decoded_attribute(texts, registry, version, CoreAttribute::Subject),
        time: decoded_attribute(texts, registry, version, CoreAttribute::Time),
        extensions: extensions_below(texts, registry, version, option_number_limit()),
        data: Some(payload),
    }
}

/// The spec version of a message, read off the texts of its options.
pub open spec fn spec_version_of(
    texts: Map<u16, Seq<char>>,
    registry: AttributeOptionRegistry,
) -> Result<SpecVersion, CodecError> {
    let number = registry.option_of(CoreAttribute::SpecVersion);
    if !texts.contains_key(number) {
        Err(CodecError::MissingRequiredAttribute)
    } else {
        match version_named(texts[number]) {
            Some(version) => Ok(version),
            None => Err(CodecError::InvalidSpecVersion),
        }
    }
}

/// What reading a message in binary mode gives.
pub open spec fn decode_binary(
    texts: Map<u16, Seq<char>>,
    payload: Seq<u8>,
    registry: AttributeOptionRegistry,
) -> Result<EventView, CodecError> {
    if detect_encoding(texts, registry) != Encoding::Binary {
        Err(CodecError::WrongEncoding)
    } else {
        match spec_version_of(texts, registry) {
            Ok(version) => Ok(decoded_event(texts, payload, registry, version)),
            Err(error) => Err(error),
        }
    }
}

/// What reading a message in structured mode gives: the payload, which holds
/// the event.
pub open spec fn decode_structured(
    texts: Map<u16, Seq<char>>,
    payload: Seq<u8>,
    registry: AttributeOptionRegistry,
) -> Result<Seq<u8>, CodecError> {
    if detect_encoding(texts, registry) != Encoding::Structured {
        Err(CodecError::WrongEncoding)
    } else {
        Ok(payload)
    }
}

/// What a message carries.
#[derive(Clone, Debug, PartialEq, Eq)]
pub enum Decoded {
    /// The event of a binary message.
    Binary(Event),
    /// The payload of a structured message: the event as JSON, for the event
    /// model to parse.
    Structured(Vec<u8>),
}

/// What a [`Decoded`] holds, as mathematical values.
pub enum DecodedView {
    Binary(EventView),
    Structured(Seq<u8>),
}

impl View for Decoded {
    type V = DecodedView;

    open spec fn view(&self) -> DecodedView {
        match self {
            Decoded::Binary(event) => DecodedView::Binary(event@),
            Decoded::Structured(bytes) => DecodedView::Structured(bytes@),
        }
    }
}

/// What reading a message in the mode that it is in gives.
pub open spec fn decode_detected(
    texts: Map<u16, Seq<char>>,
    payload: Seq<u8>,
    registry: AttributeOptionRegistry,
) -> Result<DecodedView, CodecError> {
    match detect_encoding(texts, registry) {
        Encoding::Binary => match decode_binary(texts, payload, registry) {
            Ok(event) => Ok(DecodedView::Binary(event)),
            Err(error) => Err(error),
        },
        Encoding::Structured => Ok(DecodedView::Structured(payload)),
        Encoding::Unknown => Err(CodecError::WrongEncoding),
    }
}

/// What reading a packet gives, from its options and payload as they came.
pub open spec fn decode_packet(
    options: OptionSet,
    payload: Seq<u8>,
    registry: AttributeOptionRegistry,
) -> Result<DecodedView, CodecError> {
    if !options_are_text(options, registry) {
        Err(CodecError::InvalidUtf8Value)
    } else {
        decode_detected(option_texts(options, registry), payload, registry)
    }
}

/// What reading a packet as a binary message gives, from its options and
/// payload as they came.
pub open spec fn decode(
    options: OptionSet,
    payload: Seq<u8>,
    registry: AttributeOptionRegistry,
) -> Result<EventView, CodecError> {
    if !options_are_text(options, registry) {
        Err(CodecError::InvalidUtf8Value)
    } else {
        decode_binary(option_texts(options, registry), payload, registry)
    }
}

/// An option with the text that it stands for.
struct TextOption {
    number: u16,
    text: String,
}

/// Whether the entries are in strictly ascending order of option number.
spec fn ascending(entries: Seq<TextOption>) -> bool {
    forall|i: int, j: int|
        0 <= i < j < entries.len() ==> (#[trigger] entries[i]).number < (
        #[trigger] entries[j]).number
}

/// Whether there is an entry for option `number`.
spec fn has_entry(entries: Seq<TextOption>, number: u16) -> bool {
    exists|k: int| 0 <= k < entries.len() && (#[trigger] entries[k]).number == number
}

/// Where the entry for option `number` stands.
spec fn entry_index(entries: Seq<TextOption>, number: u16) -> int {
    choose|k: int| 0 <= k < entries.len() && (#[trigger] entries[k]).number == number
}

/// The texts of the entries, by option number.
spec fn entries_map(entries: Seq<TextOption>) -> Map<u16, Seq<char>> {
    Map::new(
        |n: u16| has_entry(entries, n),
        |n: u16| entries[entry_index(entries, n)].text@,
    )
}

/// The option number of entry `i`, or the limit of option numbers behind the
/// last entry.
spec fn frontier(entries: Seq<TextOption>, i: int) -> nat {
    if 0 <= i < entries.len() {
        entries[i].number as nat
    } else {
        option_number_limit()
    }
}

/// What has been read of a binary message when all options below `bound` have
/// been looked at.
spec fn decoded_below(
    texts: Map<u16, Seq<char>>,
    registry: AttributeOptionRegistry,
    version: SpecVersion,
    bound: nat,
) -> EventView {
    EventView {
        specversion: version,
        id: attribute_below(texts, registry, version, CoreAttribute::Id, bound),
        source: attribute_below(texts, registry, version, CoreAttribute::Source, bound),
        ty: attribute_below(texts, registry, version, CoreAttribute::Type, bound),
        datacontenttype: attribute_below(
            texts,
            registry,
            version,
            CoreAttribute::DataContentType,
            bound,
        ),
        dataschema: attribute_below(texts, registry, version, CoreAttribute::DataSchema, bound),
        subject: attribute_below(texts, registry, version, CoreAttribute::Subject, bound),
        time: attribute_below(texts, registry, version, CoreAttribute::Time, bound),
        extensions: extensions_below(texts, registry, version, bound),
        data: None,
    }
}

/// The value of a core attribute, as far as the options below `bound` give
/// it.
spec fn attribute_below(
    texts: Map<u16, Seq<char>>,
    registry: AttributeOptionRegistry,
    version: SpecVersion,
    attribute: CoreAttribute,
    bound: nat,
) -> Option<Seq<char>> {
    if registry.option_of(attribute) < bound {
        decoded_attribute(texts, registry, version, attribute)
    } else {
        None
    }
}

/// Option numbers without a text add no extension.
proof fn lemma_extensions_gap(
    texts: Map<u16, Seq<char>>,
    registry: AttributeOptionRegistry,
    version: SpecVersion,
    from: nat,
    to: nat,
)
    requires
        from <= to <= option_number_limit(),
        forall|n: u16| from <= n < to ==> !texts.contains_key(n),
    ensures
        extensions_below(texts, registry, version, to) == extensions_below(
            texts,
            registry,
            version,
            from,
        ),
    decreases to,
{
    if from < to {
        lemma_extensions_gap(texts, registry, version, from, (to - 1) as nat);
    }
}

/// In ascending entries, no option number lies strictly between two
/// neighbours, nor before the first or behind the last.
proof fn lemma_frontier_gap(entries: Seq<TextOption>, i: int, n: u16)
    requires
        ascending(entries),
        0 <= i <= entries.len(),
        has_entry(entries, n),
        n < frontier(entries, i),
    ensures
        i > 0,
        n <= entries[i - 1].number,
{
    let k = entry_index(entries, n);
    if k >= i {
        if k > i {
            assert(entries[i].number < entries[k].number);
        }
    } else if k < i - 1 {
        assert(entries[k].number < entries[i - 1].number);
    }
}

/// The options of a received packet as text, together with its payload.
pub struct CoapRequestDeserializer {
    options: Vec<TextOption>,
    payload: Vec<u8>,
}

impl CoapRequestDeserializer {
    #[verifier::type_invariant]
    spec fn wf(self) -> bool {
        ascending(self.options@)
    }

    /// The text of each option, by option number.
    pub closed spec fn texts(self) -> Map<u16, Seq<char>> {
        entries_map(self.options@)
    }

    /// The payload.
    pub closed spec fn payload_bytes(self) -> Seq<u8> {
        self.payload@
    }

    /// Reads the options of a packet as text, in ascending order of option
    /// number.  An option without values counts as absent.
    fn get_coap_options(packet: &Packet, registry: &AttributeOptionRegistry) -> (entries: Result<
        Vec<TextOption>,
        CodecError,
    >)
        ensures
            entries is Ok <==> options_are_text(packet_options(*packet), *registry),
            entries matches Err(error) ==> error == CodecError::InvalidUtf8Value,
            entries matches Ok(list) ==> ascending(list@) && entries_map(list@) == option_texts(
                packet_options(*packet),
                *registry,
            ),
    {
        let ghost options = packet_options(*packet);
        let numbers = option_numbers(packet);
        let mut entries: Vec<TextOption> = Vec::new();
        let mut i: usize = 0;
        while i < numbers.len()
            invariant
                i <= numbers@.len(),
                options == packet_options(*packet),
                forall|a: int, b: int| 0 <= a < b < numbers@.len() ==> numbers@[a] < numbers@[b],
                forall|n: u16| numbers@.contains(n) <==> options.contains_key(n),
                ascending(entries@),
                forall|k: int|
                    0 <= k < entries@.len() ==> i > 0 && (#[trigger] entries@[k]).number
                        <= numbers@[i - 1],
                forall|k: int|
                    0 <= k < entries@.len() ==> option_present(
                        options,
                        (#[trigger] entries@[k]).number,
                    ) && Some(entries@[k].text@) == option_text(
                        options,
                        *registry,
                        entries@[k].number,
                    ),
                forall|j: int|
                    0 <= j < i && option_present(options, #[trigger] numbers@[j]) ==> has_entry(
                        entries@,
                        numbers@[j],
                    ) && option_text(options, *registry, numbers@[j]) is Some,
            decreases numbers@.len() - i,
        {
            let number = numbers[i];
            let ghost before = entries@;
            assert(numbers@.contains(number));
            if let Some(values) = get_option(packet, number) {
                if values.len() > 0 {
                    let bytes = if registry.path_option(number) {
                        join_segments(&values)
                    } else {
                        values[values.len() - 1].clone()
                    };
                    assert(bytes@ == option_bytes(options, *registry, number)) by {
                        assert(segments_view(values@).last() == values@.last()@);
                    }
                    proof {
                        lemma_option_text(options, *registry, number);
                    }
                    match decode_text(bytes) {
                        Some(text) => {
                            entries.push(TextOption { number, text });
                            proof {
                                assert(forall|k: int|
                                    0 <= k < before.len() ==> entries@[k] == before[k]);
                                assert(entries@[before.len() as int].number == number);
                                assert forall|j: int|
                                    0 <= j < i + 1 && option_present(
                                        options,
                                        #[trigger] numbers@[j],
                                    ) implies has_entry(entries@, numbers@[j]) by {
                                    if j < i {
                                        let k = entry_index(before, numbers@[j]);
                                        assert(entries@[k].number == numbers@[j]);
                                    }
                                }
                            }
                        },
                        None => {
                            return Err(CodecError::InvalidUtf8Value);
                        },
                    }
                }
            }
            i += 1;
        }
        proof {
            assert forall|n: u16| option_present(options, n) implies (#[trigger] option_text(
                options,
                *registry,
                n,
            )) is Some by {
                assert(numbers@.contains(n));
            }
            assert forall|n: u16| has_entry(entries@, n) == option_present(options, n) by {
                if option_present(options, n) {
                    assert(numbers@.contains(n));
                }
            }
            assert(entries_map(entries@) =~= option_texts(options, *registry));
        }
        Ok(entries)
    }

    /// Takes the options and the payload of a received packet.  Fails if an
    /// option that is present does not stand for valid UTF-8.
    pub fn new(packet: &Packet, registry: &AttributeOptionRegistry) -> (deserializer: Result<
        CoapRequestDeserializer,
        CodecError,
    >)
        ensures
            deserializer is Ok <==> options_are_text(packet_options(*packet), *registry),
            deserializer matches Err(error) ==> error == CodecError::InvalidUtf8Value,
            deserializer matches Ok(d) ==> d.texts() == option_texts(
                packet_options(*packet),
                *registry,
            ) && d.payload_bytes() == packet_payload(*packet),
    {
        match Self::get_coap_options(packet, registry) {
            Ok(options) => Ok(CoapRequestDeserializer { options, payload: get_payload(packet) }),
            Err(error) => Err(error),
        }
    }

    /// Finds the entry of option `number`.
    fn find(&self, number: u16) -> (found: Option<usize>)
        ensures
            found is Some <==> self.texts().contains_key(number),
            found matches Some(k) ==> k < self.options@.len() && self.options@[k as int].number
                == number && self.texts()[number] == self.options@[k as int].text@,
    {
        proof {
            use_type_invariant(self);
        }
        let mut k: usize = 0;
        while k < self.options.len()
            invariant
                k <= self.options@.len(),
                ascending(self.options@),
                forall|j: int| 0 <= j < k ==> (#[trigger] self.options@[j]).number != number,
            decreases self.options@.len() - k,
        {
            if self.options[k].number == number {
                proof {
                    let chosen = entry_index(self.options@, number);
                    assert(self.options@[k as int].number == number);
                    if chosen < k {
                        assert(self.options@[chosen].number < self.options@[k as int].number);
                    } else if chosen > k {
                        assert(self.options@[k as int].number < self.options@[chosen].number);
                    }
                }
                return Some(k);
            }
            k += 1;
        }
        None
    }

    /// The encoding of the message.
    pub fn encoding(&self, registry: &AttributeOptionRegistry) -> (encoding: Encoding)
        ensures
            encoding == detect_encoding(self.texts(), *registry),
    {
        if let Some(k) = self.find(CONTENT_FORMAT_OPTION) {
            if has_prefix(self.options[k].text.as_str(), CLOUDEVENTS_JSON_HEADER) {
                return Encoding::Structured;
            }
        }
        match self.find(registry.option_number(CoreAttribute::SpecVersion)) {
            Some(_) => Encoding::Binary,
            None => Encoding::Unknown,
        }
    }

    /// The spec version that the message names.
    pub fn spec_version(&self, registry: &AttributeOptionRegistry) -> (version: Result<
        SpecVersion,
        CodecError,
    >)
        ensures
            version == spec_version_of(self.texts(), *registry),
    {
        match self.find(registry.option_number(CoreAttribute::SpecVersion)) {
            Some(k) => match SpecVersion::parse(self.options[k].text.as_str()) {
                Some(version) => Ok(version),
                None => Err(CodecError::InvalidSpecVersion),
            },
            None => Err(CodecError::MissingRequiredAttribute),
        }
    }

    /// Reads the message in binary mode.
    ///
    /// The content format becomes `datacontenttype`.  Of the other options,
    /// those that may carry an attribute are taken in ascending order: one
    /// that the registry knows, under a name that the version defines, gives
    /// that core attribute; any other gives an extension named by its option
    /// number.  The payload becomes the data.
    pub fn deserialize_binary(self, registry: &AttributeOptionRegistry) -> (event: Result<
        Event,
        CodecError,
    >)
        ensures
            match decode_binary(self.texts(), self.payload_bytes(), *registry) {
                Ok(view) => event is Ok && event->Ok_0@ == view,
                Err(error) => event is Err && event->Err_0 == error,
            },
    {
        proof {
            use_type_invariant(&self);
            use_type_invariant(registry);
        }
        match self.encoding(registry) {
            Encoding::Binary => {},
            _ => {
                return Err(CodecError::WrongEncoding);
            },
        }
        let version = match self.spec_version(registry) {
            Ok(version) => version,
            Err(error) => {
                return Err(error);
            },
        };
        let ghost texts = self.texts();
        let mut event = Event::new(version);
        let mut i: usize = 0;
        proof {
            assert forall|n: u16| n < frontier(self.options@, 0) implies !texts.contains_key(
                n,
            ) by {
                if has_entry(self.options@, n) {
                    lemma_frontier_gap(self.options@, 0, n);
                }
            }
            lemma_extensions_gap(texts, *registry, version, 0, frontier(self.options@, 0));
            assert(event@.extensions =~= extensions_below(
                texts,
                *registry,
                version,
                frontier(self.options@, 0),
            ));
        }
        while i < self.options.len()
            invariant
                i <= self.options@.len(),
                ascending(self.options@),
                registry.wf(),
                texts == entries_map(self.options@),
                event@ == decoded_below(texts, *registry, version, frontier(self.options@, i as int)),
            decreases self.options@.len() - i,
        {
            let number = self.options[i].number;
            let text = self.options[i].text.clone();
            let ghost lo = frontier(self.options@, i as int);
            let ghost hi = frontier(self.options@, i + 1);
            let ghost before = event@;
            proof {
                assert(has_entry(self.options@, number));
                let chosen = entry_index(self.options@, number);
                if chosen < i {
                    assert(self.options@[chosen].number < self.options@[i as int].number);
                } else if chosen > i {
                    assert(self.options@[i as int].number < self.options@[chosen].number);
                }
                assert(texts[number] == text@);
                if i + 1 < self.options@.len() {
                    assert(self.options@[i as int].number < self.options@[i + 1].number);
                }
                assert forall|n: u16| number < n < hi implies !texts.contains_key(n) by {
                    if has_entry(self.options@, n) {
                        lemma_frontier_gap(self.options@, i + 1, n);
                    }
                }
                lemma_extensions_gap(texts, *registry, version, (number + 1) as nat, hi);
            }
            let attribute = registry.attribute_of(number);
            let known = match attribute {
                Some(a) => version.knows(a),
                None => false,
            };
            if known {
                match attribute {
                    Some(CoreAttribute::Id) => {
                        event.id = Some(text);
                    },
                    Some(CoreAttribute::Source) => {
                        event.source = Some(text);
                    },
                    Some(CoreAttribute::Type) => {
                        event.ty = Some(text);
                    },
                    Some(CoreAttribute::DataContentType) => {
                        event.datacontenttype = Some(text);
                    },
                    Some(CoreAttribute::DataSchema) => {
                        event.dataschema = Some(text);
                    },
                    Some(CoreAttribute::Subject) => {
                        event.subject = Some(text);
                    },
                    Some(CoreAttribute::Time) => {
                        event.time = Some(text);
                    },
                    _ => {},
                }
            } else if registry.attribute_bearing(number) {
                let name = option_number_name(number);
                event.extensions.push(Extension { name, value: text });
                proof {
                    assert(event@.extensions =~= before.extensions.push(
                        (decimal_text(number as nat), texts[number]),
                    ));
                }
            }
            proof {
                assert(event@.extensions == extensions_below(texts, *registry, version, hi));
                assert(event@ == decoded_below(texts, *registry, version, hi));
            }
            i += 1;
        }
        event.data = Some(self.payload);
        Ok(event)
    }

    /// Reads the message in the mode that it is in.  A message of unknown
    /// encoding is refused.
    pub fn into_event(self, registry: &AttributeOptionRegistry) -> (decoded: Result<
        Decoded,
        CodecError,
    >)
        ensures
            match decode_detected(self.texts(), self.payload_bytes(), *registry) {
                Ok(view) => decoded is Ok && decoded->Ok_0@ == view,
                Err(error) => decoded is Err && decoded->Err_0 == error,
            },
    {
        match self.encoding(registry) {
            Encoding::Binary => match self.deserialize_binary(registry) {
                Ok(event) => Ok(Decoded::Binary(event)),
                Err(error) => Err(error),
            },
            Encoding::Structured => match self.deserialize_structured(registry) {
                Ok(bytes) => Ok(Decoded::Structured(bytes)),
                Err(error) => Err(error),
            },
            Encoding::Unknown => Err(CodecError::WrongEncoding),
        }
    }

    /// Reads the message in structured mode: hands out the payload, which
    /// holds the event.
    pub fn deserialize_structured(self, registry: &AttributeOptionRegistry) -> (payload: Result<
        Vec<u8>,
        CodecError,
    >)
        ensures
            match decode_structured(self.texts(), self.payload_bytes(), *registry) {
                Ok(bytes) => payload is Ok && payload->Ok_0@ == bytes,
                Err(error) => payload is Err && payload->Err_0 == error,
            },
    {
        match self.encoding(registry) {
            Encoding::Structured => Ok(self.payload),
            _ => Err(CodecError::WrongEncoding),
        }
    }
}

} // verus!
