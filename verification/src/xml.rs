//! XML documents as sequences of plain events.
//!
//! `quick_xml` splits a document into tokens, a tag's text into attributes, and
//! replaces the entities of an attribute's value. Everything above those three
//! calls works on the plain [`XmlEvent`]s that [`read_events`] returns.

use crate::text::{chars_of, result_view, same_text};
use quick_xml::events::attributes::{Attribute, Attributes};
use quick_xml::events::Event;
use quick_xml::name::QName;
use quick_xml::Reader;
use std::borrow::Cow;
use vstd::prelude::*;

verus! {

/// A piece of markup as it stands in the document. A tag is split into its
/// name and the text behind the name.
pub enum Token {
    Start(String, String),
    Empty(String, String),
    End(String),
    Other,
    Error(String),
}

pub enum TokenView {
    Start(Seq<char>, Seq<char>),
    Empty(Seq<char>, Seq<char>),
    End(Seq<char>),
    Other,
    Error(Seq<char>),
}

impl DeepView for Token {
    type V = TokenView;

    open spec fn deep_view(&self) -> TokenView {
        match self {
            Token::Start(name, rest) => TokenView::Start(name@, rest@),
            Token::Empty(name, rest) => TokenView::Empty(name@, rest@),
            Token::End(name) => TokenView::End(name@),
            Token::Other => TokenView::Other,
            Token::Error(message) => TokenView::Error(message@),
        }
    }
}

/// An attribute: its full name, and its value with the entities replaced or the
/// reason why they cannot be.
pub struct XmlAttribute {
    pub key: String,
    pub value: Result<String, String>,
}

pub struct AttributeView {
    pub key: Seq<char>,
    pub value: Result<Seq<char>, Seq<char>>,
}

impl DeepView for XmlAttribute {
    type V = AttributeView;

    open spec fn deep_view(&self) -> AttributeView {
        AttributeView { key: self.key@, value: result_view(self.value) }
    }
}

/// A tag: its name without the namespace prefix, and its attributes in order. An
/// `Err` stands where an attribute is malformed.
pub struct Element {
    pub name: String,
    pub attributes: Vec<Result<XmlAttribute, String>>,
}

#[verifier::ext_equal]
pub struct ElementView {
    pub name: Seq<char>,
    pub attributes: Seq<Result<AttributeView, Seq<char>>>,
}

/// The views of a tag's attributes.
pub open spec fn attribute_views(attributes: Seq<Result<XmlAttribute, String>>) -> Seq<
    Result<AttributeView, Seq<char>>,
> {
    attributes.map_values(|a: Result<XmlAttribute, String>| result_view(a))
}

impl DeepView for Element {
    type V = ElementView;

    open spec fn deep_view(&self) -> ElementView {
        ElementView { name: self.name@, attributes: attribute_views(self.attributes@) }
    }
}

/// What a reader of the document meets, up to its end. An `End` carries the
/// name without the namespace prefix; `Other` is text, a comment and the like.
pub enum XmlEvent {
    Start(Element),
    Empty(Element),
    End(String),
    Other,
    Error(String),
}

#[verifier::ext_equal]
pub enum EventView {
    Start(ElementView),
    Empty(ElementView),
    End(Seq<char>),
    Other,
    Error(Seq<char>),
}

impl DeepView for XmlEvent {
    type V = EventView;

    open spec fn deep_view(&self) -> EventView {
        match self {
            XmlEvent::Start(element) => EventView::Start(element.deep_view()),
            XmlEvent::Empty(element) => EventView::Empty(element.deep_view()),
            XmlEvent::End(name) => EventView::End(name@),
            XmlEvent::Other => EventView::Other,
            XmlEvent::Error(message) => EventView::Error(message@),
        }
    }
}

/// The event reader of `quick_xml`.
#[verifier::external_type_specification]
#[verifier::external_body]
#[verifier::reject_recursive_types(R)]
pub struct ExReader<R>(Reader<R>);

/// The tokens of a document, up to its end or its first error, as
/// `quick_xml::Reader` hands them out when it trims text.
pub uninterp spec fn document_tokens(xml: Seq<char>) -> Seq<TokenView>;

/// The tokens that a reader has still to hand out.
pub uninterp spec fn pending_tokens(reader: Reader<&[u8]>) -> Seq<TokenView>;

/// The attributes that `quick_xml` finds in a tag with the name `name` and the
/// text `rest` behind it: key and raw value, or the message of an error.
pub uninterp spec fn tag_attributes(name: Seq<char>, rest: Seq<char>) -> Seq<
    Result<(Seq<char>, Seq<char>), Seq<char>>,
>;

/// The value of an attribute with its entities replaced by `quick_xml`, or the
/// message of the error that an unknown or broken entity gives.
pub uninterp spec fn unescaped(raw: Seq<char>) -> Result<Seq<char>, Seq<char>>;

/// Opens a document with `quick_xml::Reader::from_str` and has text trimmed.
///
/// Claimed: all of the document's tokens are pending, and they depend on the
/// text alone.
#[verifier::external_body]
fn open_document(xml: &str) -> (reader: Reader<&[u8]>)
    ensures
        pending_tokens(reader) == document_tokens(xml@),
{
    let mut reader = Reader::from_str(xml);
    reader.trim_text(true);
    reader
}

/// Reads one event with `quick_xml::Reader::read_event_into`.
///
/// Claimed: the events come one after the other, each once; the reader reports
/// the end of the input when none is left, and goes on to do so.
#[verifier::external_body]
fn next_token(reader: &mut Reader<&[u8]>) -> (token: Option<Token>)
    ensures
        match token {
            Some(t) => {
                &&& pending_tokens(*old(reader)).len() > 0
                &&& t.deep_view() == pending_tokens(*old(reader)).first()
                &&& pending_tokens(*final(reader)) == pending_tokens(*old(reader)).drop_first()
            },
            None => {
                &&& pending_tokens(*old(reader)).len() == 0
                &&& pending_tokens(*final(reader)).len() == 0
            },
        },
{
    let mut buf = Vec::new();
    let text = |bytes: &[u8]| String::from_utf8_lossy(bytes).into_owned();
    match reader.read_event_into(&mut buf) {
        Ok(Event::Start(e)) => Some(Token::Start(text(e.name().as_ref()), text(e.attributes_raw()))),
        Ok(Event::Empty(e)) => Some(Token::Empty(text(e.name().as_ref()), text(e.attributes_raw()))),
        Ok(Event::End(e)) => Some(Token::End(text(e.name().as_ref()))),
        Ok(Event::Eof) => None,
        Ok(_) => Some(Token::Other),
        Err(e) => Some(Token::Error(e.to_string())),
    }
}

/// Lists the attributes of a tag with `quick_xml`'s `Attributes` iterator.
///
/// Claimed: what it yields depends on the tag's name and text alone.
#[verifier::external_body]
fn split_attributes(name: &str, rest: &str) -> (r: Vec<Result<(String, String), String>>)
    ensures
        r@.map_values(|a: Result<(String, String), String>| result_view(a)) == tag_attributes(
            name@,
            rest@,
        ),
{
    let content = [name, rest].concat();
    let text = |bytes: &[u8]| String::from_utf8_lossy(bytes).into_owned();
    Attributes::new(&content, name.len())
        .map(|a| match a {
            Ok(a) => Ok((text(a.key.as_ref()), text(&a.value))),
            Err(e) => Err(e.to_string()),
        })
        .collect()
}

/// Replaces the entities in an attribute's value with
/// `quick_xml::events::attributes::Attribute::decode_and_unescape_value`.
///
/// Claimed: the outcome depends on the raw value alone.
#[verifier::external_body]
fn unescape(raw: &str) -> (r: Result<String, String>)
    ensures
        result_view(r) == unescaped(raw@),
{
    let attribute = Attribute { key: QName(b""), value: Cow::Borrowed(raw.as_bytes()) };
    let value = attribute.decode_and_unescape_value(&Reader::from_str(""));
    value.map(|v| v.into_owned()).map_err(|e| e.to_string())
}

/// What stands behind the first colon of `name`, if it has one.
pub open spec fn behind_colon(name: Seq<char>) -> Option<Seq<char>>
    decreases name.len(),
{
    if name.len() == 0 {
        None
    } else if name.first() == ':' {
        Some(name.drop_first())
    } else {
        behind_colon(name.drop_first())
    }
}

/// A qualified name without its namespace prefix.
pub open spec fn local_part(name: Seq<char>) -> Seq<char> {
    match behind_colon(name) {
        Some(local) => local,
        None => name,
    }
}

/// The attribute with its value's entities replaced.
pub open spec fn decoded_attribute(a: Result<(Seq<char>, Seq<char>), Seq<char>>) -> Result<
    AttributeView,
    Seq<char>,
> {
    match a {
        Ok((key, raw)) => Ok(AttributeView { key, value: unescaped(raw) }),
        Err(message) => Err(message),
    }
}

pub open spec fn tag_element(name: Seq<char>, rest: Seq<char>) -> ElementView {
    ElementView {
        name: local_part(name),
        attributes: tag_attributes(name, rest).map_values(
            |a: Result<(Seq<char>, Seq<char>), Seq<char>>| decoded_attribute(a),
        ),
    }
}

pub open spec fn token_event(token: TokenView) -> EventView {
    match token {
        TokenView::Start(name, rest) => EventView::Start(tag_element(name, rest)),
        TokenView::Empty(name, rest) => EventView::Empty(tag_element(name, rest)),
        TokenView::End(name) => EventView::End(local_part(name)),
        TokenView::Other => EventView::Other,
        TokenView::Error(message) => EventView::Error(message),
    }
}

/// The events of a document.
pub open spec fn document_events(xml: Seq<char>) -> Seq<EventView> {
    document_tokens(xml).map_values(|t: TokenView| token_event(t))
}

proof fn lemma_behind_colon_at(name: Seq<char>, k: int)
    requires
        0 <= k <= name.len(),
        forall|i: int| 0 <= i < k ==> #[trigger] name[i] != ':',
        k < name.len() ==> name[k] == ':',
    ensures
        behind_colon(name) == (if k < name.len() { Some(name.skip(k + 1)) } else { None }),
    decreases k,
{
    if name.len() > 0 {
        if k == 0 {
            assert(name.drop_first() =~= name.skip(1));
        } else {
            let t = name.drop_first();
            assert(name[0] != ':');
            assert forall|i: int| 0 <= i < k - 1 implies #[trigger] t[i] != ':' by {
                assert(t[i] == name[i + 1]);
            }
            lemma_behind_colon_at(t, k - 1);
            if k < name.len() {
                assert(t.skip(k) =~= name.skip(k + 1));
            }
        }
    }
}

/// A qualified name without its namespace prefix.
pub fn local_name(name: &str) -> (r: String)
    ensures
        r@ == local_part(name@),
{
    let chars = chars_of(name);
    let n: usize = chars.len();
    let mut k: usize = 0;
    while k < n && chars[k] != ':'
        invariant
            n == chars.len(),
            k <= n,
            chars@ == name@,
            forall|i: int| 0 <= i < k ==> #[trigger] name@[i] != ':',
        decreases n - k,
    {
        k = k + 1;
    }
    proof {
        lemma_behind_colon_at(name@, k as int);
    }
    if k < n {
        assert(name@.subrange(k + 1, n as int) =~= name@.skip(k + 1));
        name.substring_char(k + 1, n).to_owned()
    } else {
        name.to_owned()
    }
}

fn read_element(name: String, rest: String) -> (r: Element)
    ensures
        r.deep_view() == tag_element(name@, rest@),
{
    let raw = split_attributes(name.as_str(), rest.as_str());
    let ghost expected = tag_attributes(name@, rest@);
    let mut attributes: Vec<Result<XmlAttribute, String>> = Vec::new();
    let mut i: usize = 0;
    while i < raw.len()
        invariant
            i <= raw.len(),
            attributes.len() == i,
            expected == raw@.map_values(|a: Result<(String, String), String>| result_view(a)),
            forall|k: int|
                0 <= k < i ==> result_view(#[trigger] attributes@[k]) == decoded_attribute(
                    expected[k],
                ),
        decreases raw.len() - i,
    {
        assert(expected[i as int] == result_view(raw@[i as int]));
        let attribute = match &raw[i] {
            Ok((key, value)) => Ok(
                XmlAttribute { key: key.clone(), value: unescape(value.as_str()) },
            ),
            Err(message) => Err(message.clone()),
        };
        attributes.push(attribute);
        i = i + 1;
    }
    let element = Element { name: local_name(name.as_str()), attributes };
    proof {
        assert(element.deep_view().attributes =~= tag_element(name@, rest@).attributes);
    }
    element
}

fn read_event(token: Token) -> (r: XmlEvent)
    ensures
        r.deep_view() == token_event(token.deep_view()),
{
    match token {
        Token::Start(name, rest) => XmlEvent::Start(read_element(name, rest)),
        Token::Empty(name, rest) => XmlEvent::Empty(read_element(name, rest)),
        Token::End(name) => XmlEvent::End(local_name(name.as_str())),
        Token::Other => XmlEvent::Other,
        Token::Error(message) => XmlEvent::Error(message),
    }
}

/// The events of a document, in order, up to its end.
pub fn read_events(xml: &str) -> (r: Vec<XmlEvent>)
    ensures
        r.deep_view() == document_events(xml@),
{
    let mut reader = open_document(xml);
    let mut events: Vec<XmlEvent> = Vec::new();
    let ghost tokens = document_tokens(xml@);
    loop
        invariant
            tokens == document_tokens(xml@),
            events.len() <= tokens.len(),
            pending_tokens(reader) == tokens.skip(events.len() as int),
            forall|k: int|
                0 <= k < events.len() ==> (#[trigger] events@[k]).deep_view() == token_event(
                    tokens[k],
                ),
        ensures
            events.len() == tokens.len(),
            forall|k: int|
                0 <= k < events.len() ==> (#[trigger] events@[k]).deep_view() == token_event(
                    tokens[k],
                ),
        decreases pending_tokens(reader).len(),
    {
        match next_token(&mut reader) {
            Some(token) => {
                let ghost k = events.len() as int;
                events.push(read_event(token));
                assert(tokens.skip(k).drop_first() =~= tokens.skip(k + 1));
            },
            None => {
                break;
            },
        }
    }
    assert(events.deep_view() =~= document_events(xml@));
    events
}

/// The value of the first attribute with the name `key`. An attribute that is
/// malformed, and one with that name whose value cannot be decoded, is an error;
/// whichever comes first decides.
pub open spec fn find_attribute(
    attributes: Seq<Result<AttributeView, Seq<char>>>,
    key: Seq<char>,
) -> Result<Option<Seq<char>>, Seq<char>>
    decreases attributes.len(),
{
    if attributes.len() == 0 {
        Ok(None)
    } else {
        match attributes.first() {
            Err(message) => Err(message),
            Ok(a) => if a.key == key {
                match a.value {
                    Ok(value) => Ok(Some(value)),
                    Err(message) => Err(message),
                }
            } else {
                find_attribute(attributes.drop_first(), key)
            },
        }
    }
}

/// The value of the attribute `key` of `element`.
pub fn attr_value(element: &Element, key: &str) -> (r: Result<Option<String>, String>)
    ensures
        result_view(r) == find_attribute(element.deep_view().attributes, key@),
{
    let ghost all = element.deep_view().attributes;
    let mut i: usize = 0;
    assert(all.skip(0) =~= all);
    while i < element.attributes.len()
        invariant
            i <= element.attributes.len(),
            all == attribute_views(element.attributes@),
            find_attribute(all, key@) == find_attribute(all.skip(i as int), key@),
        decreases element.attributes.len() - i,
    {
        proof {
            assert(all[i as int] == result_view(element.attributes@[i as int]));
            assert(all.skip(i as int).drop_first() =~= all.skip(i + 1));
        }
        match &element.attributes[i] {
            Err(message) => {
                return Err(message.clone());
            },
            Ok(attribute) => {
                if same_text(attribute.key.as_str(), key) {
                    match &attribute.value {
                        Ok(value) => {
                            return Ok(Some(value.clone()));
                        },
                        Err(message) => {
                            return Err(message.clone());
                        },
                    }
                }
            },
        }
        i = i + 1;
    }
    Ok(None)
}

/// The values of the attributes `first` and `second`; every attribute must be well
/// formed, and the values of these two decodable.
pub open spec fn find_pair(
    attributes: Seq<Result<AttributeView, Seq<char>>>,
    first: Seq<char>,
    second: Seq<char>,
) -> Result<(Option<Seq<char>>, Option<Seq<char>>), Seq<char>>
    decreases attributes.len(),
{
    if attributes.len() == 0 {
        Ok((None, None))
    } else {
        match (find_pair(attributes.drop_last(), first, second), attributes.last()) {
            (Err(message), _) => Err(message),
            (Ok(_), Err(message)) => Err(message),
            (Ok((x, y)), Ok(a)) => if a.key == first {
                match a.value {
                    Ok(value) => Ok((Some(value), y)),
                    Err(message) => Err(message),
                }
            } else if a.key == second {
                match a.value {
                    Ok(value) => Ok((x, Some(value))),
                    Err(message) => Err(message),
                }
            } else {
                Ok((x, y))
            },
        }
    }
}

proof fn lemma_find_pair_error_stays(
    attributes: Seq<Result<AttributeView, Seq<char>>>,
    first: Seq<char>,
    second: Seq<char>,
    k: int,
)
    requires
        0 <= k <= attributes.len(),
        find_pair(attributes.take(k), first, second) is Err,
    ensures
        find_pair(attributes, first, second) == find_pair(attributes.take(k), first, second),
    decreases attributes.len() - k,
{
    if k == attributes.len() {
        assert(attributes.take(k) =~= attributes);
    } else {
        let t = attributes.drop_last();
        assert(t.take(k) =~= attributes.take(k));
        lemma_find_pair_error_stays(t, first, second, k);
    }
}

/// The values of the attributes `first` and `second` of `element`.
pub fn attr_pair(element: &Element, first: &str, second: &str) -> (r: Result<
    (Option<String>, Option<String>),
    String,
>)
    ensures
        result_view(r) == find_pair(element.deep_view().attributes, first@, second@),
{
    let ghost all = element.deep_view().attributes;
    let mut x: Option<String> = None;
    let mut y: Option<String> = None;
    let mut i: usize = 0;
    assert(all.take(0) =~= Seq::empty());
    while i < element.attributes.len()
        invariant
            i <= element.attributes.len(),
            all == attribute_views(element.attributes@),
            find_pair(all.take(i as int), first@, second@) == Ok::<
                (Option<Seq<char>>, Option<Seq<char>>),
                Seq<char>,
            >((x.deep_view(), y.deep_view())),
        decreases element.attributes.len() - i,
    {
        proof {
            assert(all[i as int] == result_view(element.attributes@[i as int]));
            assert(all.take(i + 1).drop_last() =~= all.take(i as int));
            assert(all.take(i + 1).last() == all[i as int]);
            if find_pair(all.take(i + 1), first@, second@) is Err {
                lemma_find_pair_error_stays(all, first@, second@, i + 1);
            }
        }
        match &element.attributes[i] {
            Err(message) => {
                return Err(message.clone());
            },
            Ok(attribute) => {
                if same_text(attribute.key.as_str(), first) {
                    match &attribute.value {
                        Ok(value) => {
                            x = Some(value.clone());
                        },
                        Err(message) => {
                            return Err(message.clone());
                        },
                    }
                } else if same_text(attribute.key.as_str(), second) {
                    match &attribute.value {
                        Ok(value) => {
                            y = Some(value.clone());
                        },
                        Err(message) => {
                            return Err(message.clone());
                        },
                    }
                }
            },
        }
        i = i + 1;
    }
    assert(all.take(all.len() as int) =~= all);
    Ok((x, y))
}

/// The views of tokens, attributes, tags and events hold every part.
pub proof fn law_xml_views_keep_every_part(
    text: String,
    rest: String,
    attribute: XmlAttribute,
    element: Element,
    i: int,
)
    ensures
        Token::Start(text, rest).deep_view() == TokenView::Start(text@, rest@),
        Token::Empty(text, rest).deep_view() == TokenView::Empty(text@, rest@),
        Token::End(text).deep_view() == TokenView::End(text@),
        Token::Other.deep_view() == TokenView::Other,
        Token::Error(text).deep_view() == TokenView::Error(text@),
        attribute.deep_view().key == attribute.key@,
        attribute.value matches Ok(value) ==> attribute.deep_view().value == Ok::<
            Seq<char>,
            Seq<char>,
        >(value@),
        attribute.value matches Err(message) ==> attribute.deep_view().value == Err::<
            Seq<char>,
            Seq<char>,
        >(message@),
        element.deep_view().name == element.name@,
        element.deep_view().attributes.len() == element.attributes@.len(),
        0 <= i < element.attributes@.len() ==> (match element.attributes@[i] {
            Ok(a) => element.deep_view().attributes[i] == Ok::<AttributeView, Seq<char>>(
                a.deep_view(),
            ),
            Err(message) => element.deep_view().attributes[i] == Err::<AttributeView, Seq<char>>(
                message@,
            ),
        }),
        XmlEvent::Start(element).deep_view() == EventView::Start(element.deep_view()),
        XmlEvent::Empty(element).deep_view() == EventView::Empty(element.deep_view()),
        XmlEvent::End(text).deep_view() == EventView::End(text@),
        XmlEvent::Other.deep_view() == EventView::Other,
        XmlEvent::Error(text).deep_view() == EventView::Error(text@),
{
}

/// A name without a colon has no prefix; else the prefix ends with the first colon.
pub proof fn law_prefix_ends_with_the_first_colon(prefix: Seq<char>, local: Seq<char>)
    requires
        !prefix.contains(':'),
    ensures
        local_part(prefix) == prefix,
        local_part(prefix.push(':') + local) == local,
{
    let name = prefix.push(':') + local;
    assert forall|i: int| 0 <= i < prefix.len() implies #[trigger] prefix[i] != ':' by {
        assert(prefix.contains(prefix[i]));
    }
    assert forall|i: int| 0 <= i < prefix.len() implies #[trigger] name[i] != ':' by {
        assert(name[i] == prefix[i]);
    }
    lemma_behind_colon_at(prefix, prefix.len() as int);
    lemma_behind_colon_at(name, prefix.len() as int);
    assert(name.skip(prefix.len() as int + 1) =~= local);
}

/// A document has an event for each token, of the same sort and in the same order: a
/// tag with its name without prefix and all of its attributes, each under its full
/// name and with the entities in its value replaced, and an error with its message.
pub proof fn law_every_token_is_an_event(xml: Seq<char>, i: int, j: int)
    requires
        0 <= i < document_tokens(xml).len(),
    ensures
        document_events(xml).len() == document_tokens(xml).len(),
        match document_tokens(xml)[i] {
            TokenView::Start(name, rest) => document_events(xml)[i] matches EventView::Start(e)
                && is_tag(e, name, rest, j),
            TokenView::Empty(name, rest) => document_events(xml)[i] matches EventView::Empty(e)
                && is_tag(e, name, rest, j),
            TokenView::End(name) => document_events(xml)[i] == EventView::End(local_part(name)),
            TokenView::Other => document_events(xml)[i] is Other,
            TokenView::Error(message) => document_events(xml)[i] == EventView::Error(message),
        },
{
}

/// Whether a tag has the given name without its prefix, and as attribute number `j`
/// what stands there in the text behind the name.
pub open spec fn is_tag(element: ElementView, name: Seq<char>, rest: Seq<char>, j: int) -> bool {
    let raw = tag_attributes(name, rest);
    &&& element.name == local_part(name)
    &&& element.attributes.len() == raw.len()
    &&& 0 <= j < raw.len() ==> match raw[j] {
        Ok((key, value)) => element.attributes[j] matches Ok(a) && a.key == key && a.value
            == unescaped(value),
        Err(message) => element.attributes[j] == Err::<AttributeView, Seq<char>>(message),
    }
}

/// Whether an attribute is well formed and has another name than `key`.
pub open spec fn is_other(a: Result<AttributeView, Seq<char>>, key: Seq<char>) -> bool {
    a matches Ok(attribute) && attribute.key != key
}

/// The first attribute that is malformed or has the name that is looked for decides:
/// a malformed one is an error, and so is one whose value cannot be decoded. Without
/// any such attribute nothing is found.
pub proof fn law_first_attribute_decides(
    attributes: Seq<Result<AttributeView, Seq<char>>>,
    key: Seq<char>,
    i: int,
)
    requires
        0 <= i <= attributes.len(),
        forall|j: int| 0 <= j < i ==> is_other(#[trigger] attributes[j], key),
        i < attributes.len() ==> !is_other(attributes[i], key),
    ensures
        i == attributes.len() ==> find_attribute(attributes, key) == Ok::<
            Option<Seq<char>>,
            Seq<char>,
        >(None),
        i < attributes.len() ==> match attributes[i] {
            Err(message) => find_attribute(attributes, key) == Err::<Option<Seq<char>>, Seq<char>>(
                message,
            ),
            Ok(a) => match a.value {
                Ok(value) => find_attribute(attributes, key) == Ok::<Option<Seq<char>>, Seq<char>>(
                    Some(value),
                ),
                Err(message) => find_attribute(attributes, key) == Err::<
                    Option<Seq<char>>,
                    Seq<char>,
                >(message),
            },
        },
    decreases i,
{
    if i > 0 {
        let rest = attributes.drop_first();
        assert(is_other(attributes[0], key));
        assert forall|j: int| 0 <= j < i - 1 implies is_other(#[trigger] rest[j], key) by {
            assert(rest[j] == attributes[j + 1]);
        }
        law_first_attribute_decides(rest, key, i - 1);
    }
}

/// Whether an attribute is well formed, and its value can be decoded if its name is
/// one of the two.
pub open spec fn is_readable(
    a: Result<AttributeView, Seq<char>>,
    first: Seq<char>,
    second: Seq<char>,
) -> bool {
    a matches Ok(attribute) && (attribute.key == first || attribute.key == second
        ==> attribute.value is Ok)
}

/// Whether attribute number `i` is the last with the name `key`.
pub open spec fn is_last_of(
    attributes: Seq<Result<AttributeView, Seq<char>>>,
    key: Seq<char>,
    i: int,
) -> bool {
    &&& 0 <= i < attributes.len()
    &&& attributes[i] matches Ok(a) && a.key == key
    &&& forall|j: int| i < j < attributes.len() ==> !((#[trigger] attributes[j]) matches Ok(a)
        && a.key == key)
}

/// Of two attributes that are looked for together the last one of each name counts,
/// where all attributes can be read.
pub proof fn law_last_attributes_count(
    attributes: Seq<Result<AttributeView, Seq<char>>>,
    first: Seq<char>,
    second: Seq<char>,
    i: int,
)
    requires
        first != second,
        forall|j: int| 0 <= j < attributes.len() ==> is_readable(
            #[trigger] attributes[j],
            first,
            second,
        ),
    ensures
        find_pair(attributes, first, second) is Ok,
        is_last_of(attributes, first, i) ==> find_pair(attributes, first, second)->Ok_0.0 == Some(
            attributes[i]->Ok_0.value->Ok_0,
        ),
        is_last_of(attributes, second, i) ==> find_pair(attributes, first, second)->Ok_0.1 == Some(
            attributes[i]->Ok_0.value->Ok_0,
        ),
        find_pair(attributes, first, second)->Ok_0.0 is Some <==> exists|j: int|
            0 <= j < attributes.len() && (#[trigger] attributes[j])->Ok_0.key == first,
        find_pair(attributes, first, second)->Ok_0.1 is Some <==> exists|j: int|
            0 <= j < attributes.len() && (#[trigger] attributes[j])->Ok_0.key == second,
    decreases attributes.len(),
{
    if attributes.len() > 0 {
        let shorter = attributes.drop_last();
        let n = attributes.len() - 1;
        assert forall|j: int| 0 <= j < shorter.len() implies is_readable(
            #[trigger] shorter[j],
            first,
            second,
        ) by {
            assert(shorter[j] == attributes[j]);
        }
        law_last_attributes_count(shorter, first, second, i);
        assert(is_readable(attributes[n], first, second));
        assert(attributes.last() == attributes[n]);
        if is_last_of(attributes, first, i) && i < n {
            assert forall|j: int| i < j < shorter.len() implies !((#[trigger] shorter[j]) matches Ok(
                a,
            ) && a.key == first) by {
                assert(shorter[j] == attributes[j]);
            }
            assert(is_last_of(shorter, first, i));
            assert(attributes[n]->Ok_0.key != first);
        }
        if is_last_of(attributes, second, i) && i < n {
            assert forall|j: int| i < j < shorter.len() implies !((#[trigger] shorter[j]) matches Ok(
                a,
            ) && a.key == second) by {
                assert(shorter[j] == attributes[j]);
            }
            assert(is_last_of(shorter, second, i));
            assert(attributes[n]->Ok_0.key != second);
        }
        if exists|j: int|
            0 <= j < shorter.len() && (#[trigger] shorter[j])->Ok_0.key == first {
            let j = choose|j: int|
                0 <= j < shorter.len() && (#[trigger] shorter[j])->Ok_0.key == first;
            assert(attributes[j]->Ok_0.key == first);
        }
        if exists|j: int|
            0 <= j < shorter.len() && (#[trigger] shorter[j])->Ok_0.key == second {
            let j = choose|j: int|
                0 <= j < shorter.len() && (#[trigger] shorter[j])->Ok_0.key == second;
            assert(attributes[j]->Ok_0.key == second);
        }
        assert forall|j: int| 0 <= j < n implies shorter[j] == #[trigger] attributes[j] by {}
    }
}

/// The first attribute that cannot be read is the error that two attributes give that
/// are looked for together.
pub proof fn law_first_unreadable_attribute_is_the_error(
    attributes: Seq<Result<AttributeView, Seq<char>>>,
    first: Seq<char>,
    second: Seq<char>,
    i: int,
)
    requires
        first != second,
        0 <= i < attributes.len(),
        forall|j: int| 0 <= j < i ==> is_readable(#[trigger] attributes[j], first, second),
        !is_readable(attributes[i], first, second),
    ensures
        find_pair(attributes, first, second) == Err::<
            (Option<Seq<char>>, Option<Seq<char>>),
            Seq<char>,
        >(
            match attributes[i] {
                Err(message) => message,
                Ok(a) => a.value->Err_0,
            },
        ),
{
    let head = attributes.take(i + 1);
    let before = attributes.take(i);
    assert forall|j: int| 0 <= j < before.len() implies is_readable(
        #[trigger] before[j],
        first,
        second,
    ) by {
        assert(before[j] == attributes[j]);
    }
    law_last_attributes_count(before, first, second, 0);
    assert(head.drop_last() =~= before);
    assert(head.last() == attributes[i]);
    lemma_find_pair_error_stays(attributes, first, second, i + 1);
}

} // verus!
