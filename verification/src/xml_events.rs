use vstd::prelude::*;
use vstd::utf8::{decode_utf8, valid_utf8};
use xml::reader::{EventReader, XmlEvent as RawEvent};

verus! {

/// An attribute of an XML element, by local name.
pub struct XmlAttribute {
    pub name: String,
    pub value: String,
}

/// What the search logic reads of one event of an XML pull parser.
pub enum XmlEvent {
    /// An opening tag: the element's local name and its attributes in order.
    StartElement { name: String, attributes: Vec<XmlAttribute> },
    /// Character data.
    Characters(String),
    /// Any other event (document start and end, closing tags, white space,
    /// comments, CDATA, processing instructions).
    Other,
    /// A parse error; the parser yields nothing after it.
    Malformed,
}

/// The model of an `XmlEvent`.
pub enum XmlEventModel {
    StartElement { name: Seq<char>, attributes: Seq<(Seq<char>, Seq<char>)> },
    Characters(Seq<char>),
    Other,
    Malformed,
}

impl View for XmlAttribute {
    type V = (Seq<char>, Seq<char>);

    open spec fn view(&self) -> (Seq<char>, Seq<char>) {
        (self.name@, self.value@)
    }
}

/// The models of a list of attributes.
pub open spec fn attributes_view(attrs: Seq<XmlAttribute>) -> Seq<(Seq<char>, Seq<char>)> {
    attrs.map_values(|a: XmlAttribute| a@)
}

impl View for XmlEvent {
    type V = XmlEventModel;

    open spec fn view(&self) -> XmlEventModel {
        match self {
            XmlEvent::StartElement { name, attributes } => XmlEventModel::StartElement {
                name: name@,
                attributes: attributes_view(attributes@),
            },
            XmlEvent::Characters(text) => XmlEventModel::Characters(text@),
            XmlEvent::Other => XmlEventModel::Other,
            XmlEvent::Malformed => XmlEventModel::Malformed,
        }
    }
}

/// The models of a list of events.
pub open spec fn events_view(events: Seq<XmlEvent>) -> Seq<XmlEventModel> {
    events.map_values(|e: XmlEvent| e@)
}

/// The text that `String::from_utf8_lossy` makes of `bytes`.
pub uninterp spec fn lossy_text(bytes: Seq<u8>) -> Seq<char>;

/// The events that `xml::reader::EventReader` (default configuration) yields
/// for `text`, up to and including the end of the document or the first
/// error.
pub uninterp spec fn xml_events_of(text: Seq<char>) -> Seq<XmlEventModel>;

/// `String::from_utf8_lossy`: claims that the text depends on the bytes
/// alone and, for valid UTF-8, is the decoded text. What it makes of invalid
/// sequences is left unsaid.
#[verifier::external_body]
pub(crate) fn decode_lossy(bytes: &[u8]) -> (text: String)
    ensures
        text@ == lossy_text(bytes@),
        valid_utf8(bytes@) ==> text@ == decode_utf8(bytes@),
{
    String::from_utf8_lossy(bytes).into_owned()
}

/// `xml::reader::EventReader::from_str(text)` iterated to its end, each
/// event converted one for one: claims only that the events depend on the
/// text alone.
#[verifier::external_body]
pub(crate) fn read_xml_events(text: &str) -> (events: Vec<XmlEvent>)
    ensures
        events_view(events@) == xml_events_of(text@),
{
    EventReader::from_str(text).into_iter().map(|ev| match ev {
        Ok(RawEvent::StartElement { name, attributes, .. }) => XmlEvent::StartElement {
            name: name.local_name,
            attributes: attributes.into_iter().map(|a| XmlAttribute { name: a.name.local_name, value: a.value }).collect(),
        },
        Ok(RawEvent::Characters(text)) => XmlEvent::Characters(text),
        Ok(_) => XmlEvent::Other,
        Err(_) => XmlEvent::Malformed,
    }).collect()
}

/// The events of a response body, read as text.
pub open spec fn body_events(body: Seq<u8>) -> Seq<XmlEventModel> {
    xml_events_of(lossy_text(body))
}

/// Reads a response body as XML events.
pub fn parse_body(body: &[u8]) -> (events: Vec<XmlEvent>)
    ensures
        events_view(events@) == body_events(body@),
{
    let text = decode_lossy(body);
    read_xml_events(text.as_str())
}

/// Walking the events in order: at the first opening tag named `name`, the
/// event right after it is consumed; if it is character data, that text is
/// the answer, else the walk goes on after it.
pub open spec fn element_text(events: Seq<XmlEventModel>, name: Seq<char>) -> Option<Seq<char>>
    decreases events.len(),
{
    if events.len() == 0 {
        None
    } else if events[0] matches XmlEventModel::StartElement { name: n, .. } && n == name {
        if events.len() == 1 {
            None
        } else if let XmlEventModel::Characters(text) = events[1] {
            Some(text)
        } else {
            element_text(events.skip(2), name)
        }
    } else {
        element_text(events.skip(1), name)
    }
}

/// The text inside the first element named `name` that is directly followed
/// by character data, walking as `element_text` says.
pub fn first_element_text(events: &Vec<XmlEvent>, name: &String) -> (text: Option<String>)
    ensures
        match text {
            Some(t) => element_text(events_view(events@), name@) == Some(t@),
            None => element_text(events_view(events@), name@) is None,
        },
{
    let ghost all = events_view(events@);
    let n = events.len();
    let mut i: usize = 0;
    assert(all.skip(0) =~= all);
    while i < n
        invariant
            n == events@.len(),
            i <= n,
            all == events_view(events@),
            element_text(all, name@) == element_text(all.skip(i as int), name@),
        decreases n - i,
    {
        let ghost rest = all.skip(i as int);
        assert(rest[0] == events@[i as int]@);
        match &events[i] {
            XmlEvent::StartElement { name: found, .. } => {
                if *found == *name {
                    if i + 1 == n {
                        assert(rest.len() == 1);
                        return None;
                    }
                    assert(rest[1] == events@[i + 1]@);
                    match &events[i + 1] {
                        XmlEvent::Characters(t) => {
                            return Some(t.clone());
                        },
                        _ => {},
                    }
                    assert(rest.skip(2) =~= all.skip(i + 2));
                    i = i + 2;
                } else {
                    assert(rest.skip(1) =~= all.skip(i + 1));
                    i = i + 1;
                }
            },
            _ => {
                assert(rest.skip(1) =~= all.skip(i + 1));
                i = i + 1;
            },
        }
    }
    assert(all.skip(i as int).len() == 0);
    None
}

/// Whether an event opens an element named `name`.
pub open spec fn opens(ev: XmlEventModel, name: Seq<char>) -> bool {
    ev matches XmlEventModel::StartElement { name: n, .. } && n == name
}

/// When the first element named `name` is directly followed by character
/// data, that text is the answer.
pub proof fn law_first_element_text(events: Seq<XmlEventModel>, name: Seq<char>, e: int, text: Seq<char>)
    requires
        0 <= e < events.len() - 1,
        opens(events[e], name),
        events[e + 1] == XmlEventModel::Characters(text),
        forall|f: int| 0 <= f < e ==> !opens(#[trigger] events[f], name),
    ensures
        element_text(events, name) == Some(text),
    decreases e,
{
    if e > 0 {
        let rest = events.skip(1);
        assert(!opens(events[0], name));
        assert(rest[e - 1] == events[e]);
        assert(rest[e] == events[e + 1]);
        assert forall|f: int| 0 <= f < e - 1 implies !opens(#[trigger] rest[f], name) by {
            assert(rest[f] == events[f + 1]);
        }
        law_first_element_text(rest, name, e - 1, text);
    }
}

/// When no element is named `name`, there is no answer.
pub proof fn law_no_element_text(events: Seq<XmlEventModel>, name: Seq<char>)
    requires
        forall|f: int| 0 <= f < events.len() ==> !opens(#[trigger] events[f], name),
    ensures
        element_text(events, name) is None,
    decreases events.len(),
{
    if events.len() > 0 {
        let rest = events.skip(1);
        assert(!opens(events[0], name));
        assert forall|f: int| 0 <= f < rest.len() implies !opens(#[trigger] rest[f], name) by {
            assert(rest[f] == events[f + 1]);
        }
        law_no_element_text(rest, name);
    }
}

/// What a walk over the attributes of one element finds.
pub enum AttributeFind {
    /// The wanted attribute, with its value.
    Found(Seq<char>),
    /// A `reason` attribute came first, with its text.
    Reason(Seq<char>),
}

/// Walking the attributes in order: the first one named `name` gives its
/// value; one named `reason` met before it gives the reason.
pub open spec fn attribute_find(attrs: Seq<(Seq<char>, Seq<char>)>, name: Seq<char>) -> Option<
    AttributeFind,
>
    decreases attrs.len(),
{
    if attrs.len() == 0 {
        None
    } else if attrs[0].0 == name {
        Some(AttributeFind::Found(attrs[0].1))
    } else if attrs[0].0 == seq!['r', 'e', 'a', 's', 'o', 'n'] {
        Some(AttributeFind::Reason(attrs[0].1))
    } else {
        attribute_find(attrs.skip(1), name)
    }
}

/// Walking the events in order, the attributes of each opening tag as
/// `attribute_find` says; `None` when no element has either attribute.
pub open spec fn events_attribute(events: Seq<XmlEventModel>, name: Seq<char>) -> Option<
    AttributeFind,
>
    decreases events.len(),
{
    if events.len() == 0 {
        None
    } else {
        let here = match events[0] {
            XmlEventModel::StartElement { attributes, .. } => attribute_find(attributes, name),
            _ => None,
        };
        if here is Some {
            here
        } else {
            events_attribute(events.skip(1), name)
        }
    }
}

/// The attributes of an event: those of an opening tag, none for others.
pub open spec fn attributes_of(ev: XmlEventModel) -> Seq<(Seq<char>, Seq<char>)> {
    match ev {
        XmlEventModel::StartElement { attributes, .. } => attributes,
        _ => Seq::empty(),
    }
}

/// Whether an attribute ends the walk for `name`: it is named `name` or
/// `reason`.
pub open spec fn ends_walk(attr: (Seq<char>, Seq<char>), name: Seq<char>) -> bool {
    attr.0 == name || attr.0 == seq!['r', 'e', 'a', 's', 'o', 'n']
}

proof fn lemma_attribute_find_first(attrs: Seq<(Seq<char>, Seq<char>)>, name: Seq<char>, a: int)
    requires
        0 <= a < attrs.len(),
        ends_walk(attrs[a], name),
        forall|b: int| 0 <= b < a ==> !ends_walk(#[trigger] attrs[b], name),
    ensures
        attribute_find(attrs, name) == if attrs[a].0 == name {
            Some(AttributeFind::Found(attrs[a].1))
        } else {
            Some(AttributeFind::Reason(attrs[a].1))
        },
    decreases a,
{
    if a > 0 {
        assert(!ends_walk(attrs[0], name));
        assert forall|b: int| 0 <= b < a - 1 implies !ends_walk(#[trigger] attrs.skip(1)[b], name) by {
            assert(attrs.skip(1)[b] == attrs[b + 1]);
        }
        assert(attrs.skip(1)[a - 1] == attrs[a]);
        lemma_attribute_find_first(attrs.skip(1), name, a - 1);
    }
}

proof fn lemma_attribute_find_none(attrs: Seq<(Seq<char>, Seq<char>)>, name: Seq<char>)
    requires
        forall|b: int| 0 <= b < attrs.len() ==> !ends_walk(#[trigger] attrs[b], name),
    ensures
        attribute_find(attrs, name) is None,
    decreases attrs.len(),
{
    if attrs.len() > 0 {
        assert(!ends_walk(attrs[0], name));
        assert forall|b: int| 0 <= b < attrs.len() - 1 implies !ends_walk(
            #[trigger] attrs.skip(1)[b],
            name,
        ) by {
            assert(attrs.skip(1)[b] == attrs[b + 1]);
        }
        lemma_attribute_find_none(attrs.skip(1), name);
    }
}

/// Walking the events and their attributes in order, the first attribute
/// named `name` or `reason` decides: its value is found if it is named
/// `name`, else it is the reason. Elements whose attributes have other names
/// are walked past.
pub proof fn law_first_deciding_attribute(events: Seq<XmlEventModel>, name: Seq<char>, e: int, a: int)
    requires
        0 <= e < events.len(),
        0 <= a < attributes_of(events[e]).len(),
        ends_walk(attributes_of(events[e])[a], name),
        forall|b: int| 0 <= b < a ==> !ends_walk(#[trigger] attributes_of(events[e])[b], name),
        forall|f: int, b: int|
            0 <= f < e && 0 <= b < attributes_of(events[f]).len() ==> !ends_walk(
                #[trigger] attributes_of(events[f])[b],
                name,
            ),
    ensures
        events_attribute(events, name) == if attributes_of(events[e])[a].0 == name {
            Some(AttributeFind::Found(attributes_of(events[e])[a].1))
        } else {
            Some(AttributeFind::Reason(attributes_of(events[e])[a].1))
        },
    decreases e,
{
    if e == 0 {
        lemma_attribute_find_first(attributes_of(events[0]), name, a);
    } else {
        let rest = events.skip(1);
        assert forall|b: int| 0 <= b < attributes_of(events[0]).len() implies !ends_walk(
            #[trigger] attributes_of(events[0])[b],
            name,
        ) by {}
        lemma_attribute_find_none(attributes_of(events[0]), name);
        assert(rest[e - 1] == events[e]);
        assert forall|f: int, b: int|
            0 <= f < e - 1 && 0 <= b < attributes_of(rest[f]).len() implies !ends_walk(
                #[trigger] attributes_of(rest[f])[b],
                name,
            ) by {
            assert(rest[f] == events[f + 1]);
        }
        law_first_deciding_attribute(rest, name, e - 1, a);
    }
}

/// When no attribute of any element is named `name` or `reason`, nothing is
/// found.
pub proof fn law_no_deciding_attribute(events: Seq<XmlEventModel>, name: Seq<char>)
    requires
        forall|f: int, b: int|
            0 <= f < events.len() && 0 <= b < attributes_of(events[f]).len() ==> !ends_walk(
                #[trigger] attributes_of(events[f])[b],
                name,
            ),
    ensures
        events_attribute(events, name) is None,
    decreases events.len(),
{
    if events.len() > 0 {
        let rest = events.skip(1);
        assert forall|b: int| 0 <= b < attributes_of(events[0]).len() implies !ends_walk(
            #[trigger] attributes_of(events[0])[b],
            name,
        ) by {}
        lemma_attribute_find_none(attributes_of(events[0]), name);
        assert forall|f: int, b: int|
            0 <= f < rest.len() && 0 <= b < attributes_of(rest[f]).len() implies !ends_walk(
                #[trigger] attributes_of(rest[f])[b],
                name,
            ) by {
            assert(rest[f] == events[f + 1]);
        }
        law_no_deciding_attribute(rest, name);
    }
}

/// Why no attribute value was found.
pub enum AttributeError {
    /// The answer gave a `reason` for having no result.
    NoResults(String),
    /// Neither the attribute nor a reason was there.
    Unreadable,
}

/// The value of the first attribute named `name`, walking the events and
/// their attributes in order; a `reason` attribute met first ends the walk.
#[verifier::loop_isolation(false)]
pub fn find_attribute(events: &Vec<XmlEvent>, name: &String) -> (found: Result<String, AttributeError>)
    ensures
        match found {
            Ok(v) => events_attribute(events_view(events@), name@) == Some(
                AttributeFind::Found(v@),
            ),
            Err(AttributeError::NoResults(r)) => events_attribute(events_view(events@), name@)
                == Some(AttributeFind::Reason(r@)),
            Err(AttributeError::Unreadable) => events_attribute(events_view(events@), name@) is None,
        },
{
    let ghost all = events_view(events@);
    let reason = String::from_str("reason");
    proof {
        reveal_strlit("reason");
        assert(reason@ =~= seq!['r', 'e', 'a', 's', 'o', 'n']);
    }
    let n = events.len();
    let mut i: usize = 0;
    assert(all.skip(0) =~= all);
    while i < n
        invariant
            n == events@.len(),
            i <= n,
            all == events_view(events@),
            reason@ == seq!['r', 'e', 'a', 's', 'o', 'n'],
            events_attribute(all, name@) == events_attribute(all.skip(i as int), name@),
        decreases n - i,
    {
        let ghost rest = all.skip(i as int);
        assert(rest[0] == events@[i as int]@);
        match &events[i] {
            XmlEvent::StartElement { attributes, .. } => {
                let ghost attrs = attributes_view(attributes@);
                assert(attrs.skip(0) =~= attrs);
                let m = attributes.len();
                let mut j: usize = 0;
                while j < m
                    invariant
                        m == attributes@.len(),
                        j <= m,
                        attrs == attributes_view(attributes@),
                        reason@ == seq!['r', 'e', 'a', 's', 'o', 'n'],
                        attribute_find(attrs, name@) == attribute_find(attrs.skip(j as int), name@),
                    decreases m - j,
                {
                    let a = &attributes[j];
                    assert(attrs.skip(j as int)[0] == a@);
                    if a.name == *name {
                        return Ok(a.value.clone());
                    } else if a.name == reason {
                        return Err(AttributeError::NoResults(a.value.clone()));
                    }
                    assert(attrs.skip(j as int).skip(1) =~= attrs.skip(j + 1));
                    j = j + 1;
                }
                assert(attrs.skip(j as int).len() == 0);
            },
            _ => {},
        }
        assert(rest.skip(1) =~= all.skip(i + 1));
        i = i + 1;
    }
    assert(all.skip(i as int).len() == 0);
    Err(AttributeError::Unreadable)
}

} // verus!
