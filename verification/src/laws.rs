//! What holds between writing and reading.

use crate::coap_request::{
    decode, decode_binary, decode_detected, decode_structured, decoded_attribute,
    decoded_event, detect_encoding, extensions_below, is_extension_option,
    is_structured_format, option_text, option_number_limit, option_present, option_texts,
    options_are_text, spec_version_of, DecodedView,
};
use crate::coap_response::{
    attribute_values, emit_all, empty_message, encode, lemma_extensions_stop, reserved_numbers,
    then_attribute, then_attributes, then_extensions, with_attribute, with_defaults,
    with_extension, with_spec_version, MessageView,
};
use crate::event::{
    lemma_known_attributes, lemma_version_text_named, CodecError, EncodePolicy, Encoding,
    EventView, SpecVersion,
};
use crate::headers::{
    attribute_name, lemma_attribute_names_distinct, lemma_registry_bijective,
    AttributeOptionRegistry, CoreAttribute, CONTENT_FORMAT_OPTION, URI_PATH_OPTION,
};
use crate::packet::OptionSet;
use crate::text::{
    decimal_text, lemma_option_number_named, lemma_split_path_nonempty, lemma_split_text,
    lemma_text_of_bytes, option_number_named, split_path,
};
use vstd::prelude::*;
use vstd::utf8::*;

verus! {

/// Writing values under an option number that has none yet leaves exactly
/// those values there.
pub proof fn lemma_emit_all_fresh(options: OptionSet, number: u16, values: Seq<Seq<u8>>)
    requires
        !options.contains_key(number),
        values.len() > 0,
    ensures
        emit_all(options, number, values) == options.insert(number, values),
    decreases values.len(),
{
    if values.len() == 1 {
        assert(values.drop_last() =~= Seq::<Seq<u8>>::empty());
        assert(emit_all(options, number, values.drop_last()) == options);
        assert(seq![values.last()] =~= values);
    } else {
        lemma_emit_all_fresh(options, number, values.drop_last());
        assert(values.drop_last().push(values.last()) =~= values);
        assert(emit_all(options, number, values) =~= options.insert(number, values));
    }
}

/// What the option set of a message holds when the core attributes in `done`
/// have been written and nothing else: an entry for each of them that the
/// event has, with the values that carry it.
pub open spec fn holds_attributes(
    options: OptionSet,
    registry: AttributeOptionRegistry,
    event: EventView,
    done: Set<CoreAttribute>,
) -> bool {
    forall|n: u16|
        {
            &&& (#[trigger] options.contains_key(n)) <==> (registry.attribute_at(n) matches Some(a)
                && done.contains(a) && event.attribute(a) is Some)
            &&& options.contains_key(n) ==> options[n] == attribute_values(
                registry,
                registry.attribute_at(n)->0,
                event.attribute(registry.attribute_at(n)->0)->0,
            )
        }
}

/// Writing one more core attribute keeps [`holds_attributes`].
proof fn lemma_attribute_step(
    message: MessageView,
    event: EventView,
    done: Set<CoreAttribute>,
    attribute: CoreAttribute,
)
    requires
        message.registry.wf(),
        holds_attributes(message.options, message.registry, event, done),
        !done.contains(attribute),
        event.specversion == SpecVersion::V03 && attribute == CoreAttribute::DataSchema
            ==> event.dataschema is None,
    ensures
        then_attribute(Ok(message), event.specversion, attribute, event.attribute(attribute))
            matches Ok(next) && next == (MessageView { options: next.options, ..message })
            && holds_attributes(next.options, message.registry, event, done.insert(attribute)),
{
    let registry = message.registry;
    let number = registry.option_of(attribute);
    lemma_registry_bijective(registry, attribute, attribute, number);
    lemma_attribute_names_distinct(attribute);
    match event.attribute(attribute) {
        Some(text) => {
            let values = attribute_values(registry, attribute, text);
            lemma_split_path_nonempty(encode_utf8(text));
            assert(!message.options.contains_key(number));
            lemma_emit_all_fresh(message.options, number, values);
            let next = message.options.insert(number, values);
            assert forall|n: u16|
                {
                    &&& (#[trigger] next.contains_key(n)) <==> (registry.attribute_at(n) matches Some(
                        a,
                    ) && done.insert(attribute).contains(a) && event.attribute(a) is Some)
                    &&& next.contains_key(n) ==> next[n] == attribute_values(
                        registry,
                        registry.attribute_at(n)->0,
                        event.attribute(registry.attribute_at(n)->0)->0,
                    )
                } by {
                if registry.attribute_at(n) is Some {
                    let a = registry.attribute_at(n)->0;
                    lemma_registry_bijective(registry, a, attribute, n);
                }
            }
        },
        None => {
            assert forall|n: u16|
                {
                    &&& (#[trigger] message.options.contains_key(n)) <==> (registry.attribute_at(
                        n,
                    ) matches Some(a) && done.insert(attribute).contains(a) && event.attribute(a)
                        is Some)
                    &&& message.options.contains_key(n) ==> message.options[n] == attribute_values(
                        registry,
                        registry.attribute_at(n)->0,
                        event.attribute(registry.attribute_at(n)->0)->0,
                    )
                } by {
                if registry.attribute_at(n) is Some {
                    let a = registry.attribute_at(n)->0;
                    lemma_registry_bijective(registry, a, attribute, n);
                }
            }
        },
    }
}

/// All core attributes.
pub open spec fn all_attributes() -> Set<CoreAttribute> {
    Set::new(|a: CoreAttribute| true)
}

/// Whether an event can be written under its version: version 0.3 has no
/// name that the registry knows for `dataschema`.
pub open spec fn writable(event: EventView) -> bool {
    event.specversion == SpecVersion::V03 ==> event.dataschema is None
}

/// Under the strict policy, the core attributes of an event are written as
/// one entry for each of them that the event has.  The payload is still
/// empty, and the numbers that are taken are those of the registry.
pub proof fn lemma_attributes_written(event: EventView, registry: AttributeOptionRegistry)
    requires
        registry.wf(),
        writable(event),
    ensures
        then_attributes(
            with_spec_version(empty_message(registry, EncodePolicy::Strict), event.specversion),
            event,
        ) matches Ok(message) && holds_attributes(
            message.options,
            registry,
            event,
            all_attributes(),
        ) && message.payload == Seq::<u8>::empty() && message.used == reserved_numbers(registry)
            && message.registry == registry && message.policy == EncodePolicy::Strict,
{
    let version = event.specversion;
    let policy = EncodePolicy::Strict;
    let started = with_spec_version(empty_message(registry, policy), version);
    let done0 = Set::<CoreAttribute>::empty().insert(CoreAttribute::SpecVersion);
    assert(holds_attributes(started.options, registry, event, done0)) by {
        let number = registry.option_of(CoreAttribute::SpecVersion);
        lemma_registry_bijective(registry, CoreAttribute::SpecVersion, CoreAttribute::SpecVersion, number);
        assert forall|n: u16|
            {
                &&& (#[trigger] started.options.contains_key(n)) <==> (registry.attribute_at(
                    n,
                ) matches Some(a) && done0.contains(a) && event.attribute(a) is Some)
                &&& started.options.contains_key(n) ==> started.options[n] == attribute_values(
                    registry,
                    registry.attribute_at(n)->0,
                    event.attribute(registry.attribute_at(n)->0)->0,
                )
            } by {
            if registry.attribute_at(n) is Some {
                let a = registry.attribute_at(n)->0;
                lemma_registry_bijective(registry, a, CoreAttribute::SpecVersion, n);
            }
        }
    }
    lemma_attribute_step(started, event, done0, CoreAttribute::DataContentType);
    let typed = then_attribute(
        Ok(started),
        version,
        CoreAttribute::DataContentType,
        event.datacontenttype,
    );
    let m1 = typed->Ok_0;
    let done1 = done0.insert(CoreAttribute::DataContentType);
    assert(with_defaults(m1) == m1);
    lemma_attribute_step(m1, event, done1, CoreAttribute::Id);
    let a = then_attribute(Ok(m1), version, CoreAttribute::Id, event.id);
    let m2 = a->Ok_0;
    let done2 = done1.insert(CoreAttribute::Id);
    lemma_attribute_step(m2, event, done2, CoreAttribute::Type);
    let b = then_attribute(a, version, CoreAttribute::Type, event.ty);
    let m3 = b->Ok_0;
    let done3 = done2.insert(CoreAttribute::Type);
    lemma_attribute_step(m3, event, done3, CoreAttribute::Source);
    let c = then_attribute(b, version, CoreAttribute::Source, event.source);
    let m4 = c->Ok_0;
    let done4 = done3.insert(CoreAttribute::Source);
    lemma_attribute_step(m4, event, done4, CoreAttribute::DataSchema);
    let d = then_attribute(c, version, CoreAttribute::DataSchema, event.dataschema);
    let m5 = d->Ok_0;
    let done5 = done4.insert(CoreAttribute::DataSchema);
    lemma_attribute_step(m5, event, done5, CoreAttribute::Subject);
    let e = then_attribute(d, version, CoreAttribute::Subject, event.subject);
    let m6 = e->Ok_0;
    let done6 = done5.insert(CoreAttribute::Subject);
    lemma_attribute_step(m6, event, done6, CoreAttribute::Time);
    let f = then_attribute(e, version, CoreAttribute::Time, event.time);
    let m7 = f->Ok_0;
    let done7 = done6.insert(CoreAttribute::Time);
    assert(done7 =~= all_attributes()) by {
        assert forall|x: CoreAttribute| done7.contains(x) by {
            match x {
                CoreAttribute::Id => {},
                CoreAttribute::Source => {},
                CoreAttribute::SpecVersion => {},
                CoreAttribute::Type => {},
                CoreAttribute::DataContentType => {},
                CoreAttribute::DataSchema => {},
                CoreAttribute::Subject => {},
                CoreAttribute::Time => {},
            }
        }
    }
    assert(then_attributes(started, event) == f);
    assert(m7.payload == Seq::<u8>::empty());
}


/// Under the strict policy, an event without extensions is written as one
/// entry for each core attribute that it has, and its data as the payload.
pub proof fn lemma_encode_core(event: EventView, registry: AttributeOptionRegistry)
    requires
        registry.wf(),
        writable(event),
        event.extensions.len() == 0,
    ensures
        encode(event, registry, EncodePolicy::Strict) matches Ok(message) && holds_attributes(
            message.options,
            registry,
            event,
            all_attributes(),
        ) && message.payload == (match event.data {
            Some(bytes) => bytes,
            None => Seq::empty(),
        }),
{
    lemma_attributes_written(event, registry);
    let started = with_spec_version(
        empty_message(registry, EncodePolicy::Strict),
        event.specversion,
    );
    let written = then_attributes(started, event);
    assert(then_extensions(written, event.extensions) == written);
}

/// The option of a written core attribute stands for the value of the
/// attribute.
proof fn lemma_attribute_bytes(
    options: OptionSet,
    registry: AttributeOptionRegistry,
    attribute: CoreAttribute,
    value: Seq<char>,
)
    requires
        options.contains_key(registry.option_of(attribute)),
        options[registry.option_of(attribute)] == attribute_values(registry, attribute, value),
    ensures
        option_present(options, registry.option_of(attribute)),
        option_text(options, registry, registry.option_of(attribute)) == Some(value),
{
    lemma_split_path_nonempty(encode_utf8(value));
    lemma_split_text(value);
    lemma_text_of_bytes(value);
}

/// Whether the extensions of an event are named by the option numbers in
/// `numbers`, in this order: each name is the decimal text of its number, the
/// numbers ascend, and each may carry an attribute and belongs to no core
/// attribute.
pub open spec fn named_by_numbers(
    extensions: Seq<(Seq<char>, Seq<char>)>,
    numbers: Seq<u16>,
    registry: AttributeOptionRegistry,
) -> bool {
    &&& numbers.len() == extensions.len()
    &&& forall|i: int, j: int| 0 <= i < j < numbers.len() ==> numbers[i] < numbers[j]
    &&& forall|i: int|
        0 <= i < numbers.len() ==> (#[trigger] extensions[i]).0 == decimal_text(numbers[i] as nat)
            && registry.is_attribute_bearing(numbers[i]) && registry.attribute_at(numbers[i])
            is None
}

/// What the option set of a message holds when the first `k` extensions have
/// been written on top of `base`: the entries of `base` as they were, and one
/// entry with one value for each of these extensions.
pub open spec fn holds_extensions(
    options: OptionSet,
    base: OptionSet,
    extensions: Seq<(Seq<char>, Seq<char>)>,
    numbers: Seq<u16>,
    k: int,
) -> bool {
    &&& forall|n: u16|
        (#[trigger] options.contains_key(n)) <==> (base.contains_key(n) || exists|i: int|
            0 <= i < k && #[trigger] numbers[i] == n)
    &&& forall|n: u16| base.contains_key(n) ==> #[trigger] options[n] == base[n]
    &&& forall|i: int|
        0 <= i < k ==> options[#[trigger] numbers[i]] == seq![encode_utf8(extensions[i].1)]
}

/// Extensions that are named by fresh option numbers are all written, each
/// to an entry of its own.
proof fn lemma_extensions_written(
    message: MessageView,
    extensions: Seq<(Seq<char>, Seq<char>)>,
    numbers: Seq<u16>,
    k: int,
)
    requires
        named_by_numbers(extensions, numbers, message.registry),
        message.used == reserved_numbers(message.registry),
        forall|n: u16|
            message.options.contains_key(n) ==> message.registry.attribute_at(n) is Some,
        0 <= k <= extensions.len(),
    ensures
        then_extensions(Ok(message), extensions.take(k)) matches Ok(next) && next.payload
            == message.payload && next.registry == message.registry && (forall|n: u16|
            next.used.contains(n) <==> (message.used.contains(n) || exists|i: int|
                0 <= i < k && #[trigger] numbers[i] == n)) && holds_extensions(
            next.options,
            message.options,
            extensions,
            numbers,
            k,
        ),
    decreases k,
{
    let before = Ok::<MessageView, CodecError>(message);
    if k == 0 {
        assert(extensions.take(0) =~= Seq::<(Seq<char>, Seq<char>)>::empty());
        assert(then_extensions(before, extensions.take(0)) == before);
    } else {
        lemma_extensions_written(message, extensions, numbers, k - 1);
        let head = then_extensions(before, extensions.take(k - 1))->Ok_0;
        assert(extensions.take(k).drop_last() =~= extensions.take(k - 1));
        assert(extensions.take(k).last() == extensions[k - 1]);
        let number = numbers[k - 1];
        lemma_option_number_named(number);
        assert(extensions[k - 1].0 == decimal_text(number as nat));
        assert(!head.used.contains(number)) by {
            if exists|i: int| 0 <= i < k - 1 && #[trigger] numbers[i] == number {
                let i = choose|i: int| 0 <= i < k - 1 && #[trigger] numbers[i] == number;
                assert(numbers[i] < numbers[k - 1]);
            }
        }
        assert(!head.options.contains_key(number)) by {
            if exists|i: int| 0 <= i < k - 1 && #[trigger] numbers[i] == number {
                let i = choose|i: int| 0 <= i < k - 1 && #[trigger] numbers[i] == number;
                assert(numbers[i] < numbers[k - 1]);
            }
        }
        let next = with_extension(head, extensions[k - 1].0, extensions[k - 1].1)->Ok_0;
        assert(then_extensions(before, extensions.take(k)) == Ok::<MessageView, CodecError>(next));
        assert forall|n: u16|
            next.used.contains(n) <==> (message.used.contains(n) || exists|i: int|
                0 <= i < k && #[trigger] numbers[i] == n) by {
            if n == number {
                assert(numbers[k - 1] == n);
            }
            if exists|i: int| 0 <= i < k - 1 && #[trigger] numbers[i] == n {
                let i = choose|i: int| 0 <= i < k - 1 && #[trigger] numbers[i] == n;
                assert(0 <= i < k && numbers[i] == n);
            }
            if exists|i: int| 0 <= i < k && #[trigger] numbers[i] == n {
                let i = choose|i: int| 0 <= i < k && #[trigger] numbers[i] == n;
                if i < k - 1 {
                    assert(0 <= i < k - 1 && numbers[i] == n);
                }
            }
        }
        assert(holds_extensions(next.options, message.options, extensions, numbers, k)) by {
            assert forall|n: u16|
                (#[trigger] next.options.contains_key(n)) <==> (message.options.contains_key(n)
                    || exists|i: int| 0 <= i < k && #[trigger] numbers[i] == n) by {
                if n == number {
                    assert(numbers[k - 1] == n);
                }
                if exists|i: int| 0 <= i < k - 1 && #[trigger] numbers[i] == n {
                    let i = choose|i: int| 0 <= i < k - 1 && #[trigger] numbers[i] == n;
                    assert(0 <= i < k && numbers[i] == n);
                }
                if exists|i: int| 0 <= i < k && #[trigger] numbers[i] == n {
                    let i = choose|i: int| 0 <= i < k && #[trigger] numbers[i] == n;
                    if i < k - 1 {
                        assert(0 <= i < k - 1 && numbers[i] == n);
                    }
                }
            }
            assert forall|i: int| 0 <= i < k implies next.options[#[trigger] numbers[i]]
                == seq![encode_utf8(extensions[i].1)] by {
                if i < k - 1 {
                    assert(numbers[i] < numbers[k - 1]);
                }
            }
        }
    }
}

/// How many of the ascending `numbers` lie below `bound`.
spec fn rank(numbers: Seq<u16>, bound: nat) -> nat
    decreases bound,
{
    if bound == 0 {
        0
    } else {
        rank(numbers, (bound - 1) as nat) + if numbers.contains((bound - 1) as u16) {
            1nat
        } else {
            0nat
        }
    }
}

/// If the options that are read as extensions are exactly those in `numbers`,
/// the extensions that are read are those that `numbers` name, in order.
proof fn lemma_extensions_listed(
    texts: Map<u16, Seq<char>>,
    registry: AttributeOptionRegistry,
    version: SpecVersion,
    extensions: Seq<(Seq<char>, Seq<char>)>,
    numbers: Seq<u16>,
    bound: nat,
)
    requires
        bound <= option_number_limit(),
        numbers.len() == extensions.len(),
        forall|i: int, j: int| 0 <= i < j < numbers.len() ==> numbers[i] < numbers[j],
        forall|n: u16|
            (texts.contains_key(n) && is_extension_option(registry, version, n))
                <==> numbers.contains(n),
        forall|i: int|
            0 <= i < numbers.len() ==> (#[trigger] extensions[i]) == (
                decimal_text(numbers[i] as nat),
                texts[numbers[i]],
            ),
    ensures
        rank(numbers, bound) <= numbers.len(),
        forall|i: int| 0 <= i < rank(numbers, bound) ==> numbers[i] < bound,
        forall|i: int| rank(numbers, bound) <= i < numbers.len() ==> numbers[i] >= bound,
        extensions_below(texts, registry, version, bound) == extensions.take(
            rank(numbers, bound) as int,
        ),
    decreases bound,
{
    if bound == 0 {
        assert(extensions.take(0) =~= Seq::<(Seq<char>, Seq<char>)>::empty());
    } else {
        let below = (bound - 1) as nat;
        lemma_extensions_listed(texts, registry, version, extensions, numbers, below);
        let r = rank(numbers, below) as int;
        let n = below as u16;
        if numbers.contains(n) {
            let j = choose|j: int| 0 <= j < numbers.len() && numbers[j] == n;
            assert(j >= r) by {
                if j < r {
                    assert(numbers[j] < below);
                }
            }
            assert(j == r) by {
                if j > r {
                    assert(numbers[r] < numbers[j]);
                    assert(numbers[r] >= below);
                }
            }
            assert(extensions.take(r + 1) =~= extensions.take(r).push(extensions[r]));
            assert forall|i: int| r + 1 <= i < numbers.len() implies numbers[i] >= bound by {
                assert(numbers[r] < numbers[i]);
            }
        } else {
            assert forall|i: int| r <= i < numbers.len() implies numbers[i] >= bound by {
                assert(numbers[i] >= below);
                if numbers[i] == n {
                    assert(numbers.contains(n));
                }
            }
        }
    }
}

/// Round trip with extensions.  Take an event that has data, whose content
/// type does not announce a structured message, that can be written under its
/// version, and whose extensions are named by ascending option numbers that
/// may carry an attribute and belong to no core attribute.  Writing it in
/// binary mode under the strict policy succeeds, and reading the result with
/// the same registry gives the event back: the same version, the same core
/// attributes, the same extensions in the same order, the same data.
pub proof fn lemma_round_trip_with_extensions(
    event: EventView,
    registry: AttributeOptionRegistry,
    numbers: Seq<u16>,
)
    requires
        registry.wf(),
        writable(event),
        named_by_numbers(event.extensions, numbers, registry),
        event.data is Some,
        event.datacontenttype matches Some(format) ==> !is_structured_format(format),
    ensures
        encode(event, registry, EncodePolicy::Strict) matches Ok(message) && decode(
            message.options,
            message.payload,
            registry,
        ) == Ok::<EventView, CodecError>(event),
{
    let version = event.specversion;
    let extensions = event.extensions;
    lemma_attributes_written(event, registry);
    let started = with_spec_version(empty_message(registry, EncodePolicy::Strict), version);
    let core = then_attributes(started, event)->Ok_0;
    lemma_extensions_written(core, extensions, numbers, extensions.len() as int);
    assert(extensions.take(extensions.len() as int) =~= extensions);
    let written = then_extensions(Ok(core), extensions)->Ok_0;
    let message = encode(event, registry, EncodePolicy::Strict)->Ok_0;
    let options = message.options;
    assert(options == written.options);
    assert forall|n: u16| core.options.contains_key(n) implies option_present(options, n) && (
    #[trigger] option_text(options, registry, n)) == event.attribute(
        registry.attribute_at(n)->0,
    ) by {
        let a = registry.attribute_at(n)->0;
        lemma_registry_bijective(registry, a, a, n);
        assert(options[n] == core.options[n]);
        assert(options.contains_key(n));
        lemma_attribute_bytes(options, registry, a, event.attribute(a)->0);
    }
    assert forall|i: int| 0 <= i < numbers.len() implies option_present(
        options,
        #[trigger] numbers[i],
    ) && option_text(options, registry, numbers[i]) == Some(extensions[i].1) by {
        let n = numbers[i];
        assert(options.contains_key(n));
        assert(options[n] == seq![encode_utf8(extensions[i].1)]);
        assert(options[n].last() == encode_utf8(extensions[i].1));
        lemma_text_of_bytes(extensions[i].1);
        lemma_registry_bijective(registry, CoreAttribute::Subject, CoreAttribute::Subject, n);
    }
    assert forall|n: u16| option_present(options, n) implies (#[trigger] option_text(
        options,
        registry,
        n,
    )) is Some by {
        if !core.options.contains_key(n) {
            let i = choose|i: int| 0 <= i < numbers.len() && #[trigger] numbers[i] == n;
            assert(option_text(options, registry, numbers[i]) is Some);
        }
    }
    assert(options_are_text(options, registry));
    let texts = option_texts(options, registry);
    assert forall|a: CoreAttribute|
        decoded_attribute(texts, registry, version, a) == #[trigger] event.attribute(a) by {
        let n = registry.option_of(a);
        lemma_registry_bijective(registry, a, a, n);
        lemma_known_attributes(version, a);
        if core.options.contains_key(n) {
            assert(option_text(options, registry, n) == event.attribute(a));
        } else if options.contains_key(n) {
            let i = choose|i: int| 0 <= i < numbers.len() && #[trigger] numbers[i] == n;
            assert(registry.attribute_at(numbers[i]) is None);
        }
    }
    assert(decoded_attribute(texts, registry, version, CoreAttribute::DataContentType)
        == event.attribute(CoreAttribute::DataContentType));
    assert(decoded_attribute(texts, registry, version, CoreAttribute::SpecVersion)
        == event.attribute(CoreAttribute::SpecVersion));
    lemma_registry_bijective(
        registry,
        CoreAttribute::DataContentType,
        CoreAttribute::DataContentType,
        CONTENT_FORMAT_OPTION,
    );
    assert(detect_encoding(texts, registry) == Encoding::Binary);
    lemma_version_text_named(version);
    assert(spec_version_of(texts, registry) == Ok::<SpecVersion, CodecError>(version));
    assert forall|n: u16|
        (texts.contains_key(n) && is_extension_option(registry, version, n))
            <==> numbers.contains(n) by {
        if numbers.contains(n) {
            let i = choose|i: int| 0 <= i < numbers.len() && numbers[i] == n;
            assert(option_present(options, numbers[i]));
        }
        if texts.contains_key(n) && is_extension_option(registry, version, n) {
            if core.options.contains_key(n) {
                let a = registry.attribute_at(n)->0;
                lemma_known_attributes(version, a);
            } else {
                let i = choose|i: int| 0 <= i < numbers.len() && #[trigger] numbers[i] == n;
                assert(numbers[i] == n);
            }
        }
    }
    assert forall|i: int| 0 <= i < numbers.len() implies (#[trigger] extensions[i]) == (
        decimal_text(numbers[i] as nat),
        texts[numbers[i]],
    ) by {
        assert(option_text(options, registry, numbers[i]) == Some(extensions[i].1));
        assert(option_present(options, numbers[i]));
    }
    lemma_extensions_listed(
        texts,
        registry,
        version,
        extensions,
        numbers,
        option_number_limit(),
    );
    assert(rank(numbers, option_number_limit()) == numbers.len());
    assert(extensions.take(numbers.len() as int) =~= extensions);
    let decoded = decoded_event(texts, message.payload, registry, version);
    assert(decoded.id == event.attribute(CoreAttribute::Id));
    assert(decoded.source == event.attribute(CoreAttribute::Source));
    assert(decoded.ty == event.attribute(CoreAttribute::Type));
    assert(decoded.dataschema == event.attribute(CoreAttribute::DataSchema));
    assert(decoded.subject == event.attribute(CoreAttribute::Subject));
    assert(decoded.time == event.attribute(CoreAttribute::Time));
    assert(decoded.extensions == event.extensions);
    assert(decoded == event);
}

/// Round trip.  Take an event that has data and no extensions, whose content
/// type does not announce a structured message, and that can be written
/// under its version.  Writing it in binary mode under the strict policy
/// succeeds, and reading the result with the same registry gives the event
/// back: the same version, the same core attributes, no extensions, the same
/// data.
pub proof fn lemma_round_trip(event: EventView, registry: AttributeOptionRegistry)
    requires
        registry.wf(),
        writable(event),
        event.extensions.len() == 0,
        event.data is Some,
        event.datacontenttype matches Some(format) ==> !is_structured_format(format),
    ensures
        encode(event, registry, EncodePolicy::Strict) matches Ok(message) && decode(
            message.options,
            message.payload,
            registry,
        ) == Ok::<EventView, CodecError>(event),
{
    lemma_round_trip_with_extensions(event, registry, Seq::empty());
}

/// A message whose encoding is unknown is refused on every path: read as
/// binary, read as structured, and read in the mode that it is in.
pub proof fn lemma_unknown_is_refused(
    texts: Map<u16, Seq<char>>,
    payload: Seq<u8>,
    registry: AttributeOptionRegistry,
)
    requires
        detect_encoding(texts, registry) == Encoding::Unknown,
    ensures
        decode_binary(texts, payload, registry) == Err::<EventView, CodecError>(
            CodecError::WrongEncoding,
        ),
        decode_structured(texts, payload, registry) == Err::<Seq<u8>, CodecError>(
            CodecError::WrongEncoding,
        ),
        decode_detected(texts, payload, registry) == Err::<DecodedView, CodecError>(
            CodecError::WrongEncoding,
        ),
{
}

/// A message is read as binary only if it is binary, and as structured only
/// if it is structured; so no message is read on both paths.
pub proof fn lemma_paths_exclusive(
    texts: Map<u16, Seq<char>>,
    payload: Seq<u8>,
    registry: AttributeOptionRegistry,
)
    ensures
        decode_binary(texts, payload, registry) is Ok ==> detect_encoding(texts, registry)
            == Encoding::Binary,
        decode_structured(texts, payload, registry) is Ok <==> detect_encoding(texts, registry)
            == Encoding::Structured,
        !(decode_binary(texts, payload, registry) is Ok && decode_structured(
            texts,
            payload,
            registry,
        ) is Ok),
{
}

/// An extension whose name stands for the option number of a core attribute
/// is refused by every message that has the numbers of its registry taken, as
/// every message has from its start.
pub proof fn lemma_reserved_number_rejected(
    message: MessageView,
    name: Seq<char>,
    value: Seq<char>,
)
    requires
        reserved_numbers(message.registry).subset_of(message.used),
        option_number_named(name) matches Some(number) && message.registry.attribute_at(number)
            is Some,
    ensures
        with_extension(message, name, value) == Err::<MessageView, CodecError>(
            CodecError::ReservedOrDuplicateOption,
        ),
{
    let number = option_number_named(name)->0;
    assert(reserved_numbers(message.registry).contains(number));
}

/// After an extension has been written, an extension whose name stands for
/// the same option number is refused, however the two names are spelled.
pub proof fn lemma_duplicate_number_rejected(
    message: MessageView,
    first: (Seq<char>, Seq<char>),
    second: (Seq<char>, Seq<char>),
)
    requires
        option_number_named(first.0) is Some,
        option_number_named(first.0) == option_number_named(second.0),
        with_extension(message, first.0, first.1) is Ok,
    ensures
        with_extension(with_extension(message, first.0, first.1)->Ok_0, second.0, second.1)
            == Err::<MessageView, CodecError>(CodecError::ReservedOrDuplicateOption),
{
}

/// Writing core attributes leaves alone which numbers are taken.
proof fn lemma_attributes_keep_used(started: MessageView, event: EventView)
    ensures
        then_attributes(started, event) matches Ok(message) ==> message.used == started.used
            && message.registry == started.registry,
{
}

/// The numbers of the extensions that have been written are taken, beside
/// those that were taken before.
proof fn lemma_extensions_take_numbers(
    before: Result<MessageView, CodecError>,
    extensions: Seq<(Seq<char>, Seq<char>)>,
    i: int,
)
    requires
        0 <= i < extensions.len(),
        before is Ok,
        then_extensions(before, extensions) is Ok,
    ensures
        then_extensions(before, extensions)->Ok_0.registry == before->Ok_0.registry,
        before->Ok_0.used.subset_of(then_extensions(before, extensions)->Ok_0.used),
        option_number_named(extensions[i].0) matches Some(number) && then_extensions(
            before,
            extensions,
        )->Ok_0.used.contains(number),
    decreases extensions.len(),
{
    let head = extensions.drop_last();
    if head.len() > 0 {
        lemma_extensions_take_numbers(before, head, 0);
    } else {
        assert(then_extensions(before, head) == before);
    }
    if i < head.len() {
        lemma_extensions_take_numbers(before, head, i);
    }
}

/// Collision rejection.  An event is not written if one of its extensions has
/// a name that stands for the option number of a core attribute, or for the
/// same option number as an extension before it.  If every step before that
/// extension succeeds, the error is `ReservedOrDuplicateOption`.
pub proof fn lemma_collision_rejected(
    event: EventView,
    registry: AttributeOptionRegistry,
    policy: EncodePolicy,
    j: int,
)
    requires
        0 <= j < event.extensions.len(),
        option_number_named(event.extensions[j].0) matches Some(number) && (registry.attribute_at(
            number,
        ) is Some || exists|i: int|
            0 <= i < j && option_number_named(#[trigger] event.extensions[i].0) == Some(number)),
    ensures
        encode(event, registry, policy) is Err,
        then_extensions(
            then_attributes(
                with_spec_version(empty_message(registry, policy), event.specversion),
                event,
            ),
            event.extensions.take(j),
        ) is Ok ==> encode(event, registry, policy) == Err::<MessageView, CodecError>(
            CodecError::ReservedOrDuplicateOption,
        ),
{
    let started = with_spec_version(empty_message(registry, policy), event.specversion);
    let attributes = then_attributes(started, event);
    let extensions = event.extensions;
    let number = option_number_named(extensions[j].0)->0;
    let head = then_extensions(attributes, extensions.take(j));
    let upto = then_extensions(attributes, extensions.take(j + 1));
    assert(extensions.take(j + 1).drop_last() =~= extensions.take(j));
    assert(extensions.take(j + 1).last() == extensions[j]);
    lemma_attributes_keep_used(started, event);
    if head is Ok {
        assert(attributes is Ok) by {
            if attributes is Err {
                assert(extensions.take(j).take(0) =~= Seq::<(Seq<char>, Seq<char>)>::empty());
                lemma_extensions_stop(attributes, extensions.take(j), 0);
            }
        }
        let message = head->Ok_0;
        if j > 0 {
            lemma_extensions_take_numbers(attributes, extensions.take(j), 0);
        }
        if registry.attribute_at(number) is Some {
            assert(reserved_numbers(registry).contains(number));
            assert(message.used.contains(number));
        } else {
            let i = choose|i: int|
                0 <= i < j && option_number_named(#[trigger] event.extensions[i].0) == Some(
                    number,
                );
            lemma_extensions_take_numbers(attributes, extensions.take(j), i);
            assert(extensions.take(j)[i] == extensions[i]);
        }
        assert(upto == Err::<MessageView, CodecError>(CodecError::ReservedOrDuplicateOption));
    }
    assert(upto is Err);
    lemma_extensions_stop(attributes, extensions, j + 1);
}

/// Path aggregation round trip.  Under a registry that puts `subject` in the
/// path option, a subject is written as the pieces of its bytes between the
/// `/`, in order, and these pieces are read back as the subject.
pub proof fn lemma_path_round_trip(
    message: MessageView,
    subject: Seq<char>,
)
    requires
        message.registry.spec_subject_on_path(),
        !message.options.contains_key(URI_PATH_OPTION),
    ensures
        with_attribute(message, attribute_name(CoreAttribute::Subject), subject) matches Ok(next)
            && next.options == message.options.insert(
            URI_PATH_OPTION,
            split_path(encode_utf8(subject)),
        ) && option_text(next.options, message.registry, URI_PATH_OPTION) == Some(subject),
{
    lemma_attribute_names_distinct(CoreAttribute::Subject);
    lemma_split_path_nonempty(encode_utf8(subject));
    lemma_emit_all_fresh(message.options, URI_PATH_OPTION, split_path(encode_utf8(subject)));
    lemma_split_text(subject);
}

} // verus!
