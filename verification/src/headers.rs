//! The registry that relates attribute names to option numbers.

use crate::text::same_text;
use std::collections::HashMap;
use vstd::prelude::*;

verus! {

/// Number of the protocol's own content-format option.
pub const CONTENT_FORMAT_OPTION: u16 = 12;

/// Number of the protocol's own path option, which may occur several times in
/// one message, once for each segment of the path.
pub const URI_PATH_OPTION: u16 = 11;

/// Media type that marks a message whose payload holds the whole event.
pub const CLOUDEVENTS_JSON_HEADER: &'static str = "application/cloudevents+json";

/// How many option numbers a registry takes from its base upwards.
pub const CUSTOM_OPTION_COUNT: u16 = 7;

/// The attributes that have a place in the registry.
#[derive(Clone, Copy, Debug, PartialEq, Eq, Structural)]
pub enum CoreAttribute {
    Id,
    Source,
    SpecVersion,
    Type,
    DataContentType,
    DataSchema,
    Subject,
    Time,
}

/// The name of a core attribute.
pub open spec fn attribute_name(attribute: CoreAttribute) -> Seq<char> {
    match attribute {
        CoreAttribute::Id => "id"@,
        CoreAttribute::Source => "source"@,
        CoreAttribute::SpecVersion => "specversion"@,
        CoreAttribute::Type => "type"@,
        CoreAttribute::DataContentType => "datacontenttype"@,
        CoreAttribute::DataSchema => "dataschema"@,
        CoreAttribute::Subject => "subject"@,
        CoreAttribute::Time => "time"@,
    }
}

/// The core attribute that goes by `name`, if there is one.  Names are
/// compared as they are written: case matters.
pub open spec fn attribute_named(name: Seq<char>) -> Option<CoreAttribute> {
    if name == "id"@ {
        Some(CoreAttribute::Id)
    } else if name == "source"@ {
        Some(CoreAttribute::Source)
    } else if name == "specversion"@ {
        Some(CoreAttribute::SpecVersion)
    } else if name == "type"@ {
        Some(CoreAttribute::Type)
    } else if name == "datacontenttype"@ {
        Some(CoreAttribute::DataContentType)
    } else if name == "dataschema"@ {
        Some(CoreAttribute::DataSchema)
    } else if name == "subject"@ {
        Some(CoreAttribute::Subject)
    } else if name == "time"@ {
        Some(CoreAttribute::Time)
    } else {
        None
    }
}

/// The eight names are pairwise different, so each core attribute is found
/// again by its name.
pub proof fn lemma_attribute_names_distinct(attribute: CoreAttribute)
    ensures
        attribute_named(attribute_name(attribute)) == Some(attribute),
{
    reveal_strlit("id");
    reveal_strlit("source");
    reveal_strlit("specversion");
    reveal_strlit("type");
    reveal_strlit("datacontenttype");
    reveal_strlit("dataschema");
    reveal_strlit("subject");
    reveal_strlit("time");
    assert("id"@.len() == 2 && "source"@.len() == 6 && "specversion"@.len() == 11);
    assert("type"@.len() == 4 && "datacontenttype"@.len() == 15 && "dataschema"@.len() == 10);
    assert("subject"@.len() == 7 && "time"@.len() == 4);
    assert("type"@[1] == 'y' && "time"@[1] == 'i');
}

impl CoreAttribute {
    /// The name of this attribute.
    pub fn name(self) -> (name: &'static str)
        ensures
            name@ == attribute_name(self),
    {
        match self {
            CoreAttribute::Id => "id",
            CoreAttribute::Source => "source",
            CoreAttribute::SpecVersion => "specversion",
            CoreAttribute::Type => "type",
            CoreAttribute::DataContentType => "datacontenttype",
            CoreAttribute::DataSchema => "dataschema",
            CoreAttribute::Subject => "subject",
            CoreAttribute::Time => "time",
        }
    }

    /// The core attribute that goes by `name`, if there is one.
    pub fn from_name(name: &str) -> (attribute: Option<CoreAttribute>)
        ensures
            attribute == attribute_named(name@),
    {
        if same_text(name, "id") {
            Some(CoreAttribute::Id)
        } else if same_text(name, "source") {
            Some(CoreAttribute::Source)
        } else if same_text(name, "specversion") {
            Some(CoreAttribute::SpecVersion)
        } else if same_text(name, "type") {
            Some(CoreAttribute::Type)
        } else if same_text(name, "datacontenttype") {
            Some(CoreAttribute::DataContentType)
        } else if same_text(name, "dataschema") {
            Some(CoreAttribute::DataSchema)
        } else if same_text(name, "subject") {
            Some(CoreAttribute::Subject)
        } else if same_text(name, "time") {
            Some(CoreAttribute::Time)
        } else {
            None
        }
    }
}

/// Place of a core attribute among the option numbers that a registry takes
/// from its base upwards.  The content type has none: it travels in the
/// protocol's own content-format option.
pub open spec fn custom_offset(attribute: CoreAttribute) -> int {
    match attribute {
        CoreAttribute::Id => 0,
        CoreAttribute::Source => 1,
        CoreAttribute::SpecVersion => 2,
        CoreAttribute::Type => 3,
        CoreAttribute::DataContentType => 0,
        CoreAttribute::DataSchema => 4,
        CoreAttribute::Subject => 5,
        CoreAttribute::Time => 6,
    }
}

/// The table between attribute names and option numbers of one deployment
/// profile.  It is made once and only read afterwards.
///
/// A profile is fixed by two choices: the base, which is the first of the
/// seven consecutive option numbers that carry `id`, `source`, `specversion`,
/// `type`, `dataschema`, `subject` and `time`, in this order; and whether
/// `subject` travels in the protocol's own path option instead, one segment
/// per option value.  `datacontenttype` always travels in the content-format
/// option.
#[derive(Clone, Copy, Debug, PartialEq, Eq, Structural)]
pub struct AttributeOptionRegistry {
    custom_base: u16,
    subject_on_path: bool,
}

impl AttributeOptionRegistry {
    /// What every registry satisfies: the base lies above the protocol's own
    /// options that this binding uses, and the seven numbers fit.
    #[verifier::type_invariant]
    pub open spec fn wf(self) -> bool {
        Self::valid_base(self.spec_custom_base())
    }

    /// The first option number that carries an attribute of its own.
    pub closed spec fn spec_custom_base(self) -> u16 {
        self.custom_base
    }

    /// Whether `subject` travels in the path option.
    pub closed spec fn spec_subject_on_path(self) -> bool {
        self.subject_on_path
    }

    /// Which bases a registry can have.
    pub open spec fn valid_base(custom_base: u16) -> bool {
        CONTENT_FORMAT_OPTION < custom_base <= u16::MAX - CUSTOM_OPTION_COUNT + 1
    }

    /// The option number that carries `attribute`.
    pub open spec fn option_of(self, attribute: CoreAttribute) -> u16 {
        match attribute {
            CoreAttribute::DataContentType => CONTENT_FORMAT_OPTION,
            CoreAttribute::Subject => if self.spec_subject_on_path() {
                URI_PATH_OPTION
            } else {
                (self.spec_custom_base() + custom_offset(attribute)) as u16
            },
            _ => (self.spec_custom_base() + custom_offset(attribute)) as u16,
        }
    }

    /// The core attribute that option `number` carries, if it carries one.
    pub open spec fn attribute_at(self, number: u16) -> Option<CoreAttribute> {
        if number == self.option_of(CoreAttribute::Id) {
            Some(CoreAttribute::Id)
        } else if number == self.option_of(CoreAttribute::Source) {
            Some(CoreAttribute::Source)
        } else if number == self.option_of(CoreAttribute::SpecVersion) {
            Some(CoreAttribute::SpecVersion)
        } else if number == self.option_of(CoreAttribute::Type) {
            Some(CoreAttribute::Type)
        } else if number == self.option_of(CoreAttribute::DataContentType) {
            Some(CoreAttribute::DataContentType)
        } else if number == self.option_of(CoreAttribute::DataSchema) {
            Some(CoreAttribute::DataSchema)
        } else if number == self.option_of(CoreAttribute::Subject) {
            Some(CoreAttribute::Subject)
        } else if number == self.option_of(CoreAttribute::Time) {
            Some(CoreAttribute::Time)
        } else {
            None
        }
    }

    /// Whether the values of option `number` are the segments of a path.
    pub open spec fn is_path_option(self, number: u16) -> bool {
        self.spec_subject_on_path() && number == URI_PATH_OPTION
    }

    /// Whether option `number` may carry an attribute other than the content
    /// type: it lies at or above the base, or it is the path option of a
    /// profile that puts `subject` there.
    pub open spec fn is_attribute_bearing(self, number: u16) -> bool {
        number >= self.spec_custom_base() || self.is_path_option(number)
    }

    /// The option number for the attribute called `name`, if the registry has
    /// one.
    pub open spec fn spec_option_for(self, name: Seq<char>) -> Option<u16> {
        match attribute_named(name) {
            Some(attribute) => Some(self.option_of(attribute)),
            None => None,
        }
    }

    /// The name of the attribute that option `number` carries, if it carries
    /// one.
    pub open spec fn spec_attribute_for(self, number: u16) -> Option<Seq<char>> {
        match self.attribute_at(number) {
            Some(attribute) => Some(attribute_name(attribute)),
            None => None,
        }
    }

    /// A registry with the given base, or `None` if seven option numbers from
    /// that base on do not all lie above the content-format option and within
    /// the range of option numbers.
    pub fn with_base(custom_base: u16, subject_on_path: bool) -> (registry: Option<Self>)
        ensures
            registry is Some <==> Self::valid_base(custom_base),
            registry matches Some(r) ==> r.spec_custom_base() == custom_base
                && r.spec_subject_on_path() == subject_on_path,
    {
        if custom_base > CONTENT_FORMAT_OPTION && custom_base <= u16::MAX - CUSTOM_OPTION_COUNT
            + 1 {
            Some(AttributeOptionRegistry { custom_base, subject_on_path })
        } else {
            None
        }
    }

    /// The profile whose attributes start at option 2048, with `subject` in
    /// an option of its own.
    pub fn base_2048() -> (registry: Self)
        ensures
            registry.spec_custom_base() == 2048,
            !registry.spec_subject_on_path(),
    {
        AttributeOptionRegistry { custom_base: 2048, subject_on_path: false }
    }

    /// The profile whose attributes start at option 4200, with `subject` in
    /// an option of its own.
    pub fn base_4200() -> (registry: Self)
        ensures
            registry.spec_custom_base() == 4200,
            !registry.spec_subject_on_path(),
    {
        AttributeOptionRegistry { custom_base: 4200, subject_on_path: false }
    }

    /// The same profile with `subject` moved to the path option.
    pub fn with_path_subject(self) -> (registry: Self)
        ensures
            registry.spec_custom_base() == self.spec_custom_base(),
            registry.spec_subject_on_path(),
    {
        proof {
            use_type_invariant(&self);
        }
        AttributeOptionRegistry { custom_base: self.custom_base, subject_on_path: true }
    }

    /// The first option number that carries an attribute of its own.
    pub fn custom_base(&self) -> (custom_base: u16)
        ensures
            custom_base == self.spec_custom_base(),
            Self::valid_base(custom_base),
    {
        proof {
            use_type_invariant(self);
        }
        self.custom_base
    }

    /// Whether `subject` travels in the path option.
    pub fn subject_on_path(&self) -> (on_path: bool)
        ensures
            on_path == self.spec_subject_on_path(),
    {
        self.subject_on_path
    }

    /// The option number that carries `attribute`.
    pub fn option_number(&self, attribute: CoreAttribute) -> (number: u16)
        ensures
            number == self.option_of(attribute),
            self.attribute_at(number) == Some(attribute),
    {
        proof {
            use_type_invariant(self);
        }
        match attribute {
            CoreAttribute::Id => self.custom_base,
            CoreAttribute::Source => self.custom_base + 1,
            CoreAttribute::SpecVersion => self.custom_base + 2,
            CoreAttribute::Type => self.custom_base + 3,
            CoreAttribute::DataContentType => CONTENT_FORMAT_OPTION,
            CoreAttribute::DataSchema => self.custom_base + 4,
            CoreAttribute::Subject => if self.subject_on_path {
                URI_PATH_OPTION
            } else {
                self.custom_base + 5
            },
            CoreAttribute::Time => self.custom_base + 6,
        }
    }

    /// The core attribute that option `number` carries, if it carries one.
    pub fn attribute_of(&self, number: u16) -> (attribute: Option<CoreAttribute>)
        ensures
            attribute == self.attribute_at(number),
            attribute matches Some(a) ==> self.option_of(a) == number,
    {
        proof {
            use_type_invariant(self);
        }
        if number == CONTENT_FORMAT_OPTION {
            Some(CoreAttribute::DataContentType)
        } else if self.subject_on_path && number == URI_PATH_OPTION {
            Some(CoreAttribute::Subject)
        } else if number < self.custom_base || number - self.custom_base >= CUSTOM_OPTION_COUNT {
            None
        } else {
            let offset: u16 = number - self.custom_base;
            if offset == 0 {
                Some(CoreAttribute::Id)
            } else if offset == 1 {
                Some(CoreAttribute::Source)
            } else if offset == 2 {
                Some(CoreAttribute::SpecVersion)
            } else if offset == 3 {
                Some(CoreAttribute::Type)
            } else if offset == 4 {
                Some(CoreAttribute::DataSchema)
            } else if offset == 5 {
                if self.subject_on_path {
                    None
                } else {
                    Some(CoreAttribute::Subject)
                }
            } else {
                Some(CoreAttribute::Time)
            }
        }
    }

    /// Whether the values of option `number` are the segments of a path.
    pub fn path_option(&self, number: u16) -> (is_path: bool)
        ensures
            is_path == self.is_path_option(number),
    {
        self.subject_on_path && number == URI_PATH_OPTION
    }

    /// Whether option `number` may carry an attribute other than the content
    /// type.
    pub fn attribute_bearing(&self, number: u16) -> (bearing: bool)
        ensures
            bearing == self.is_attribute_bearing(number),
    {
        number >= self.custom_base || (self.subject_on_path && number == URI_PATH_OPTION)
    }

    /// The option number for the attribute called `name`, if the registry has
    /// one.
    pub fn option_for(&self, name: &str) -> (number: Option<u16>)
        ensures
            number == self.spec_option_for(name@),
    {
        match CoreAttribute::from_name(name) {
            Some(attribute) => Some(self.option_number(attribute)),
            None => None,
        }
    }

    /// The name of the attribute that option `number` carries, if it carries
    /// one.
    pub fn attribute_for(&self, number: u16) -> (name: Option<&'static str>)
        ensures
            name is Some <==> self.spec_attribute_for(number) is Some,
            name matches Some(n) ==> Some(n@) == self.spec_attribute_for(number),
    {
        match self.attribute_of(number) {
            Some(attribute) => Some(attribute.name()),
            None => None,
        }
    }
}

/// All core attributes, in the order of the registry's tables.
pub open spec fn core_attributes() -> Seq<CoreAttribute> {
    seq![
        CoreAttribute::Id,
        CoreAttribute::Source,
        CoreAttribute::SpecVersion,
        CoreAttribute::Type,
        CoreAttribute::DataContentType,
        CoreAttribute::DataSchema,
        CoreAttribute::Subject,
        CoreAttribute::Time,
    ]
}

/// The registry is a bijection between the core attributes and their option
/// numbers: no two attributes share a number, each attribute is found again
/// under its number, and the content type alone sits in the content-format
/// option, below every number that the registry takes from its base.
pub proof fn lemma_registry_bijective(
    registry: AttributeOptionRegistry,
    a: CoreAttribute,
    b: CoreAttribute,
    number: u16,
)
    requires
        registry.wf(),
    ensures
        registry.option_of(a) == registry.option_of(b) ==> a == b,
        registry.attribute_at(registry.option_of(a)) == Some(a),
        registry.attribute_at(number) == Some(a) <==> registry.option_of(a) == number,
        registry.option_of(a) == CONTENT_FORMAT_OPTION <==> a == CoreAttribute::DataContentType,
        a != CoreAttribute::DataContentType ==> registry.is_attribute_bearing(
            registry.option_of(a),
        ),
        !registry.is_attribute_bearing(CONTENT_FORMAT_OPTION),
{
}

/// The same by names: looking up the number of a name and then the name of
/// that number gives the name back, and the other way round.
pub proof fn lemma_registry_lookups_agree(
    registry: AttributeOptionRegistry,
    name: Seq<char>,
    number: u16,
)
    requires
        registry.wf(),
    ensures
        registry.spec_option_for(name) == Some(number) <==> registry.spec_attribute_for(number)
            == Some(name),
{
    if registry.spec_option_for(name) == Some(number) {
        let a = attribute_named(name)->0;
        lemma_registry_bijective(registry, a, a, number);
        lemma_attribute_name_found(name);
    }
    if registry.spec_attribute_for(number) == Some(name) {
        let a = registry.attribute_at(number)->0;
        lemma_registry_bijective(registry, a, a, number);
        lemma_attribute_names_distinct(a);
    }
}

/// A name that belongs to a core attribute is the name of that attribute.
pub proof fn lemma_attribute_name_found(name: Seq<char>)
    ensures
        attribute_named(name) matches Some(a) ==> attribute_name(a) == name,
{
}

/// The table from option numbers to attribute names.
pub fn options_to_attributes(registry: &AttributeOptionRegistry) -> (table: HashMap<
    u16,
    &'static str,
>)
    ensures
        forall|n: u16| table@.contains_key(n) <==> registry.attribute_at(n) is Some,
        forall|n: u16|
            table@.contains_key(n) ==> Some(#[trigger] table@[n]@) == registry.spec_attribute_for(
                n,
            ),
{
    proof {
        use_type_invariant(registry);
    }
    let mut table: HashMap<u16, &'static str> = HashMap::new();
    table.insert(registry.option_number(CoreAttribute::Id), "id");
    table.insert(registry.option_number(CoreAttribute::Source), "source");
    table.insert(registry.option_number(CoreAttribute::SpecVersion), "specversion");
    table.insert(registry.option_number(CoreAttribute::Type), "type");
    table.insert(registry.option_number(CoreAttribute::DataContentType), "datacontenttype");
    table.insert(registry.option_number(CoreAttribute::DataSchema), "dataschema");
    table.insert(registry.option_number(CoreAttribute::Subject), "subject");
    table.insert(registry.option_number(CoreAttribute::Time), "time");
    table
}

/// The table from attribute names to option numbers, one row for each core
/// attribute.
pub fn attributes_to_options(registry: &AttributeOptionRegistry) -> (table: Vec<
    (&'static str, u16),
>)
    ensures
        table@.len() == core_attributes().len(),
        forall|i: int|
            0 <= i < table@.len() ==> (#[trigger] table@[i]).0@ == attribute_name(
                core_attributes()[i],
            ) && table@[i].1 == registry.option_of(core_attributes()[i]),
{
    let mut table: Vec<(&'static str, u16)> = Vec::new();
    table.push(("id", registry.option_number(CoreAttribute::Id)));
    table.push(("source", registry.option_number(CoreAttribute::Source)));
    table.push(("specversion", registry.option_number(CoreAttribute::SpecVersion)));
    table.push(("type", registry.option_number(CoreAttribute::Type)));
    table.push(("datacontenttype", registry.option_number(CoreAttribute::DataContentType)));
    table.push(("dataschema", registry.option_number(CoreAttribute::DataSchema)));
    table.push(("subject", registry.option_number(CoreAttribute::Subject)));
    table.push(("time", registry.option_number(CoreAttribute::Time)));
    table
}

} // verus!
