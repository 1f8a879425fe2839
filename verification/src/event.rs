//! The event as this binding sees it, the ways a message can carry one, and
//! the errors of the binding.

use crate::headers::{attribute_name, CoreAttribute};
use crate::text::same_text;
use vstd::prelude::*;

verus! {

/// Version of the CloudEvents specification that an event follows.
#[derive(Clone, Copy, Debug, PartialEq, Eq, Structural)]
pub enum SpecVersion {
    /// CloudEvents 0.3
    V03,
    /// CloudEvents 1.0
    V10,
}

/// How a message carries an event.
#[derive(Clone, Copy, Debug, PartialEq, Eq, Structural)]
pub enum Encoding {
    /// The payload holds the whole event; one option names its format.
    Structured,
    /// Each attribute has an option of its own; the payload holds the data.
    Binary,
    /// The message is not recognised as carrying an event.
    Unknown,
}

/// Why a message could not be read as an event, or an event could not be
/// written as a message.  No operation retries, and none hands out a part of
/// its result beside an error.
#[derive(Clone, Copy, Debug, PartialEq, Eq, Structural)]
pub enum CodecError {
    /// The message is not in the encoding that the operation reads.  A
    /// message of unknown encoding is in none.
    WrongEncoding,
    /// The message has no spec-version option.  Reading a whole message
    /// never ends so, because a message without that option is not binary:
    /// this is what asking for the spec version alone gives.
    MissingRequiredAttribute,
    /// The spec-version option names no known version.
    InvalidSpecVersion,
    /// An option value that has to be text is not valid UTF-8.
    InvalidUtf8Value,
    /// The registry has no option for the name of a core attribute.
    UnknownAttribute,
    /// The name of an extension is not an option number.
    InvalidExtensionName,
    /// The option number of an extension belongs to a core attribute or has
    /// been used by an earlier extension of the same event.
    ReservedOrDuplicateOption,
}

/// What the encoder adds to a message beyond the event's own attributes.
#[derive(Clone, Copy, Debug, PartialEq, Eq, Structural)]
pub enum EncodePolicy {
    /// Nothing: the message holds what the event holds.
    Strict,
    /// A content format and a type marker for a consumer that expects both:
    /// see [`DEFAULT_CONTENT_FORMAT`] and [`DEFAULT_TYPE_MARKER`].
    InjectDefaults,
}

/// Content format that [`EncodePolicy::InjectDefaults`] gives a message whose
/// event names none.
pub const DEFAULT_CONTENT_FORMAT: &'static str = "application/octet-stream";

/// First value that [`EncodePolicy::InjectDefaults`] gives the option of the
/// `type` attribute.
pub const DEFAULT_TYPE_MARKER: &'static str = "io.drogue.event.v1";

/// The text that stands for a version in the `specversion` attribute.
pub open spec fn version_text(version: SpecVersion) -> Seq<char> {
    match version {
        SpecVersion::V03 => "0.3"@,
        SpecVersion::V10 => "1.0"@,
    }
}

/// The version that `text` stands for, if it stands for one.
pub open spec fn version_named(text: Seq<char>) -> Option<SpecVersion> {
    if text == "0.3"@ {
        Some(SpecVersion::V03)
    } else if text == "1.0"@ {
        Some(SpecVersion::V10)
    } else {
        None
    }
}

/// The names of the attributes that a version defines.
pub open spec fn version_attribute_names(version: SpecVersion) -> Seq<Seq<char>> {
    match version {
        SpecVersion::V03 => seq![
            "specversion"@,
            "id"@,
            "type"@,
            "source"@,
            "datacontenttype"@,
            "schemaurl"@,
            "subject"@,
            "time"@,
        ],
        SpecVersion::V10 => seq![
            "specversion"@,
            "id"@,
            "type"@,
            "source"@,
            "datacontenttype"@,
            "dataschema"@,
            "subject"@,
            "time"@,
        ],
    }
}

/// Whether a version defines the attribute that the registry calls
/// `attribute`.
pub open spec fn known_to(version: SpecVersion, attribute: CoreAttribute) -> bool {
    version_attribute_names(version).contains(attribute_name(attribute))
}

/// Version 1.0 defines every attribute of the registry; version 0.3 defines
/// all but `dataschema`.
pub proof fn lemma_known_attributes(version: SpecVersion, attribute: CoreAttribute)
    ensures
        known_to(version, attribute) <==> (version == SpecVersion::V10 || attribute
            != CoreAttribute::DataSchema),
{
    reveal_strlit("id");
    reveal_strlit("source");
    reveal_strlit("specversion");
    reveal_strlit("type");
    reveal_strlit("datacontenttype");
    reveal_strlit("dataschema");
    reveal_strlit("schemaurl");
    reveal_strlit("subject");
    reveal_strlit("time");
    let names = version_attribute_names(version);
    assert(names[0] == "specversion"@ && names[1] == "id"@ && names[2] == "type"@ && names[3]
        == "source"@);
    assert(names[4] == "datacontenttype"@ && names[6] == "subject"@ && names[7] == "time"@);
    assert("dataschema"@.len() == 10 && "schemaurl"@.len() == 9);
    assert("id"@.len() == 2 && "source"@.len() == 6 && "specversion"@.len() == 11);
    assert("type"@.len() == 4 && "datacontenttype"@.len() == 15);
    assert("subject"@.len() == 7 && "time"@.len() == 4);
    if version == SpecVersion::V10 {
        assert(names[5] == "dataschema"@);
    } else {
        assert(names[5] == "schemaurl"@);
    }
}

/// The two version texts differ, so each version is found again by its text.
pub proof fn lemma_version_text_named(version: SpecVersion)
    ensures
        version_named(version_text(version)) == Some(version),
{
    reveal_strlit("0.3");
    reveal_strlit("1.0");
    assert("0.3"@[0] == '0' && "1.0"@[0] == '1');
}

/// `cloudevents::event::SpecVersion::try_from` accepts the two texts "0.3"
/// and "1.0", and nothing else.
#[verifier::external_body]
fn parse_spec_version(text: &str) -> (version: Option<SpecVersion>)
    ensures
        version == version_named(text@),
{
    match cloudevents::event::SpecVersion::try_from(text) {
        Ok(cloudevents::event::SpecVersion::V03) => Some(SpecVersion::V03),
        Ok(cloudevents::event::SpecVersion::V10) => Some(SpecVersion::V10),
        Err(_) => None,
    }
}

/// `cloudevents::event::SpecVersion::as_str` gives "0.3" for version 0.3 and
/// "1.0" for version 1.0.
#[verifier::external_body]
fn spec_version_text(version: SpecVersion) -> (text: String)
    ensures
        text@ == version_text(version),
{
    let outside = match version {
        SpecVersion::V03 => cloudevents::event::SpecVersion::V03,
        SpecVersion::V10 => cloudevents::event::SpecVersion::V10,
    };
    outside.as_str().to_string()
}

/// `cloudevents::event::SpecVersion::attribute_names` lists the eight
/// attribute names of a version, `specversion` first.
#[verifier::external_body]
fn spec_version_attribute_names(version: SpecVersion) -> (names: Vec<String>)
    ensures
        names@.len() == version_attribute_names(version).len(),
        forall|i: int|
            0 <= i < names@.len() ==> (#[trigger] names@[i])@ == version_attribute_names(
                version,
            )[i],
{
    let outside = match version {
        SpecVersion::V03 => cloudevents::event::SpecVersion::V03,
        SpecVersion::V10 => cloudevents::event::SpecVersion::V10,
    };
    outside.attribute_names().iter().map(|name| name.to_string()).collect()
}

impl SpecVersion {
    /// Reads a version from the text of a `specversion` attribute.
    pub fn parse(text: &str) -> (version: Option<SpecVersion>)
        ensures
            version == version_named(text@),
    {
        parse_spec_version(text)
    }

    /// The text that stands for this version in a `specversion` attribute.
    pub fn text(self) -> (text: String)
        ensures
            text@ == version_text(self),
    {
        spec_version_text(self)
    }

    /// Whether this version defines the attribute that the registry calls
    /// `attribute`.
    pub fn knows(self, attribute: CoreAttribute) -> (known: bool)
        ensures
            known == known_to(self, attribute),
    {
        let names = spec_version_attribute_names(self);
        let name = attribute.name();
        let mut i: usize = 0;
        while i < names.len()
            invariant
                i <= names@.len(),
                name@ == attribute_name(attribute),
                names@.len() == version_attribute_names(self).len(),
                forall|k: int|
                    0 <= k < names@.len() ==> (#[trigger] names@[k])@ == version_attribute_names(
                        self,
                    )[k],
                forall|k: int|
                    0 <= k < i ==> version_attribute_names(self)[k] != attribute_name(attribute),
            decreases names@.len() - i,
        {
            if same_text(names[i].as_str(), name) {
                assert(version_attribute_names(self)[i as int] == attribute_name(attribute));
                return true;
            }
            i += 1;
        }
        false
    }
}

/// An attribute of an event that the registry does not know.
#[derive(Clone, Debug, PartialEq, Eq)]
pub struct Extension {
    pub name: String,
    pub value: String,
}

/// The attributes and the data that a message carries for one event.
///
/// Every attribute but the version may be absent: whether an event is
/// complete is for the event model to say, not for the binding.
#[derive(Clone, Debug, PartialEq, Eq)]
pub struct Event {
    pub specversion: SpecVersion,
    pub id: Option<String>,
    pub source: Option<String>,
    pub ty: Option<String>,
    pub datacontenttype: Option<String>,
    pub dataschema: Option<String>,
    pub subject: Option<String>,
    pub time: Option<String>,
    pub extensions: Vec<Extension>,
    pub data: Option<Vec<u8>>,
}

/// What an [`Event`] holds, as mathematical values.
pub struct EventView {
    pub specversion: SpecVersion,
    pub id: Option<Seq<char>>,
    pub source: Option<Seq<char>>,
    pub ty: Option<Seq<char>>,
    pub datacontenttype: Option<Seq<char>>,
    pub dataschema: Option<Seq<char>>,
    pub subject: Option<Seq<char>>,
    pub time: Option<Seq<char>>,
    pub extensions: Seq<(Seq<char>, Seq<char>)>,
    pub data: Option<Seq<u8>>,
}

/// The text of an optional string.
pub open spec fn text_view(text: Option<String>) -> Option<Seq<char>> {
    match text {
        Some(s) => Some(s@),
        None => None,
    }
}

/// The bytes of an optional buffer.
pub open spec fn bytes_view(bytes: Option<Vec<u8>>) -> Option<Seq<u8>> {
    match bytes {
        Some(b) => Some(b@),
        None => None,
    }
}

/// Names and values of a list of extensions.
pub open spec fn extensions_view(extensions: Seq<Extension>) -> Seq<(Seq<char>, Seq<char>)> {
    extensions.map_values(|e: Extension| (e.name@, e.value@))
}

impl View for Event {
    type V = EventView;

    open spec fn view(&self) -> EventView {
        EventView {
            specversion: self.specversion,
            id: text_view(self.id),
            source: text_view(self.source),
            ty: text_view(self.ty),
            datacontenttype: text_view(self.datacontenttype),
            dataschema: text_view(self.dataschema),
            subject: text_view(self.subject),
            time: text_view(self.time),
            extensions: extensions_view(self.extensions@),
            data: bytes_view(self.data),
        }
    }
}

impl EventView {
    /// Whether the event has the attributes that every event is required to
    /// have beside its version: `id`, `source` and `type`.
    pub open spec fn is_complete(self) -> bool {
        self.id is Some && self.source is Some && self.ty is Some
    }

    /// The value of a core attribute, if the event has it.
    pub open spec fn attribute(self, attribute: CoreAttribute) -> Option<Seq<char>> {
        match attribute {
            CoreAttribute::Id => self.id,
            CoreAttribute::Source => self.source,
            CoreAttribute::SpecVersion => Some(version_text(self.specversion)),
            CoreAttribute::Type => self.ty,
            CoreAttribute::DataContentType => self.datacontenttype,
            CoreAttribute::DataSchema => self.dataschema,
            CoreAttribute::Subject => self.subject,
            CoreAttribute::Time => self.time,
        }
    }
}

impl Event {
    /// Whether the event has the attributes that every event is required to
    /// have beside its version: `id`, `source` and `type`.
    pub fn is_complete(&self) -> (complete: bool)
        ensures
            complete == self@.is_complete(),
    {
        self.id.is_some() && self.source.is_some() && self.ty.is_some()
    }

    /// An event of the given version without attributes, extensions or data.
    pub fn new(specversion: SpecVersion) -> (event: Event)
        ensures
            event@ == (EventView {
                specversion,
                id: None,
                source: None,
                ty: None,
                datacontenttype: None,
                dataschema: None,
                subject: None,
                time: None,
                extensions: Seq::empty(),
                data: None,
            }),
    {
        let event = Event {
            specversion,
            id: None,
            source: None,
            ty: None,
            datacontenttype: None,
            dataschema: None,
            subject: None,
            time: None,
            extensions: Vec::new(),
            data: None,
        };
        assert(event@.extensions =~= Seq::empty());
        event
    }
}

} // verus!
