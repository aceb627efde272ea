//! Writing values: what each kind of value appends to a builder.
//!
//! A value that can stand as an element says what it writes in three spec
//! functions: its attributes, its body, and itself as an element under a tag.
//! `None` stands for a value that cannot be written in that place; writing
//! it there fails.

use std::borrow::Cow;
use vstd::prelude::*;
use vstd::string::*;
use crate::de::XmlStr;
use crate::decimal::{bool_text, push_bool, push_decimal, push_signed_decimal, signed_decimal};
use crate::escape::escape;
use crate::ser::{attribute_start, close_tag, fmt_error, FmtResult, XmlBuilder};

verus! {

/// How a writing operation that is to append `text` relates the builder
/// before and after: it succeeds and has appended exactly `text`; or, where
/// there is no text to write, it fails, with what was written so far left
/// in place.
pub open spec fn emitted(pre: Seq<char>, post: Seq<char>, r: FmtResult, text: Option<Seq<char>>) -> bool {
    match text {
        Some(t) => r is Ok && post == pre + t,
        None => r is Err && pre.is_prefix_of(post),
    }
}

/// An element: `<tag`, the attributes, `>`, the body, `</tag>`.
pub open spec fn element(tag: Seq<char>, attrs: Option<Seq<char>>, body: Option<Seq<char>>) -> Option<
    Seq<char>,
> {
    match (attrs, body) {
        (Some(a), Some(b)) => Some(seq!['<'] + tag + a + seq!['>'] + b + close_tag(tag)),
        _ => None,
    }
}

/// An attribute whose value is a body: a space, the key, `="`, the body, `"`.
pub open spec fn attribute_of(key: Seq<char>, body: Option<Seq<char>>) -> Option<Seq<char>> {
    match body {
        Some(b) => Some(attribute_start(key) + b + seq!['"']),
        None => None,
    }
}

/// The elements of a sequence, each under the same tag, in order.
pub open spec fn elements<T: SerXml>(items: Seq<T>, tag: Seq<char>) -> Option<Seq<char>>
    decreases items.len(),
{
    if items.len() == 0 {
        Some(Seq::empty())
    } else {
        match (elements(items.drop_last(), tag), items.last().xml_text(tag)) {
            (Some(a), Some(b)) => Some(a + b),
            _ => None,
        }
    }
}

/// `is_prefix_of` is transitive.
pub proof fn lemma_prefix_chain(a: Seq<char>, b: Seq<char>, c: Seq<char>)
    requires
        a.is_prefix_of(b),
        b.is_prefix_of(c),
    ensures
        a.is_prefix_of(c),
{
    assert(a =~= c.subrange(0, a.len() as int)) by {
        assert forall|i: int| 0 <= i < a.len() implies a[i] == c[i] by {
            assert(a[i] == b.subrange(0, a.len() as int)[i]);
            assert(b[i] == c.subrange(0, b.len() as int)[i]);
        }
    }
}

/// A value that can be written as an element.
pub trait SerXml {
    /// What `ser_attrs` appends. A type that does not say leaves it open.
    open spec fn attrs_text(&self) -> Option<Seq<char>> {
        arbitrary()
    }

    /// What `ser_body` appends. A type that does not say leaves it open.
    open spec fn body_text(&self) -> Option<Seq<char>> {
        arbitrary()
    }

    /// What `ser_xml` appends under the tag `tag`. A type that does not say
    /// leaves it open.
    open spec fn xml_text(&self, tag: Seq<char>) -> Option<Seq<char>> {
        arbitrary()
    }

    /// Appends what stands between the element's opening and closing tag.
    fn ser_body(&self, xml: &mut XmlBuilder<'_>) -> (r: FmtResult)
        ensures
            emitted(old(xml)@, final(xml)@, r, self.body_text()),
            final(final(xml).writer)@ == final(old(xml).writer)@,
    ;

    /// Appends the element's attributes, as they stand inside its opening tag.
    fn ser_attrs(&self, xml: &mut XmlBuilder<'_>) -> (r: FmtResult)
        ensures
            emitted(old(xml)@, final(xml)@, r, self.attrs_text()),
            final(final(xml).writer)@ == final(old(xml).writer)@,
    ;

    /// Appends the value as an element, or as the elements, named `tag_name`.
    fn ser_xml(&self, xml: &mut XmlBuilder<'_>, tag_name: &str) -> (r: FmtResult)
        ensures
            emitted(old(xml)@, final(xml)@, r, self.xml_text(tag_name@)),
            final(final(xml).writer)@ == final(old(xml).writer)@,
    ;
}

/// A value that can be written as an attribute's value, or as the text of
/// an element.
pub trait SerXmlAsAttr: SerXml {
    /// What `ser_as_attr` appends under the key `key`. A type that does not
    /// say leaves it open.
    open spec fn attr_text(&self, key: Seq<char>) -> Option<Seq<char>> {
        arbitrary()
    }

    /// Appends the value as an attribute named `attr_key`.
    fn ser_as_attr(&self, xml: &mut XmlBuilder<'_>, attr_key: &str) -> (r: FmtResult)
        ensures
            emitted(old(xml)@, final(xml)@, r, self.attr_text(attr_key@)),
            final(final(xml).writer)@ == final(old(xml).writer)@,
    ;

    /// Appends the value as the text of the element it stands in.
    fn ser_as_text(&self, xml: &mut XmlBuilder<'_>) -> (r: FmtResult)
        ensures
            emitted(old(xml)@, final(xml)@, r, self.body_text()),
            final(final(xml).writer)@ == final(old(xml).writer)@,
    {
        self.ser_body(xml)
    }
}

/// A value that is written without attributes: it can stand as a body alone.
pub trait SerXmlNoAttrs: SerXml {
    /// Appends the value as a body.
    fn ser_as_body(&self, xml: &mut XmlBuilder<'_>) -> (r: FmtResult)
        ensures
            emitted(old(xml)@, final(xml)@, r, self.body_text()),
            final(final(xml).writer)@ == final(old(xml).writer)@,
    {
        self.ser_body(xml)
    }
}

/// A record with a fixed tag, which can be written as a whole document.
pub trait SerXmlTopLevel: SerXml {
    /// The tag of the root element.
    const TAG_NAME: &'static str;

    /// Appends the document to `writer`.
    fn serialize(&self, writer: &mut String) -> (r: FmtResult)
        ensures
            emitted(old(writer)@, final(writer)@, r, self.xml_text(Self::TAG_NAME@)),
    {
        let mut xml = XmlBuilder::new(writer);
        self.ser_xml(&mut xml, Self::TAG_NAME)
    }

    /// The document as a string.
    fn serialize_to_string(&self) -> (r: String)
        requires
            self.xml_text(Self::TAG_NAME@) is Some,
        ensures
            Some(r@) == self.xml_text(Self::TAG_NAME@),
    {
        let mut s = String::new();
        match self.serialize(&mut s) {
            Ok(()) => {
                proof {
                    assert(Seq::<char>::empty() + self.xml_text(Self::TAG_NAME@)->0
                        =~= self.xml_text(Self::TAG_NAME@)->0);
                }
                s
            },
            Err(_) => unreached(),
        }
    }
}

/// Appends `value` as one element: `<tag_name`, its attributes, `>`, its
/// body, `</tag_name>`. This is how every value that is a single element
/// writes itself. Where the attributes or the body cannot be written, the
/// call fails with the start of the opening tag written.
pub fn ser_element<T: SerXml + ?Sized>(value: &T, xml: &mut XmlBuilder<'_>, tag_name: &str) -> (r:
    FmtResult)
    ensures
        emitted(
            old(xml)@,
            final(xml)@,
            r,
            element(tag_name@, value.attrs_text(), value.body_text()),
        ),
        r is Err ==> (old(xml)@ + seq!['<'] + tag_name@).is_prefix_of(final(xml)@),
        final(final(xml).writer)@ == final(old(xml).writer)@,
{
    xml.tag_open_start(tag_name)?;
    let ghost opened = xml@;
    match value.ser_attrs(xml) {
        Ok(()) => {},
        Err(e) => {
            proof {
                lemma_prefix_chain(old(xml)@, opened, xml@);
            }
            return Err(e);
        },
    }
    xml.tag_open_end()?;
    let ghost inside = xml@;
    match value.ser_body(xml) {
        Ok(()) => {},
        Err(e) => {
            proof {
                assert(opened =~= inside.subrange(0, opened.len() as int));
                lemma_prefix_chain(opened, inside, xml@);
                lemma_prefix_chain(old(xml)@, inside, xml@);
            }
            return Err(e);
        },
    }
    let r = xml.tag_close(tag_name);
    proof {
        assert(xml@ =~= old(xml)@ + element(tag_name@, value.attrs_text(), value.body_text())->0);
    }
    r
}

/// Appends `value` as one attribute: ` attr_key="`, its body, `"`. This is
/// how every value that is always present writes itself as an attribute.
/// Where the body cannot be written, the call fails with the start of the
/// attribute written.
pub fn ser_attribute<T: SerXml + ?Sized>(value: &T, xml: &mut XmlBuilder<'_>, attr_key: &str) -> (r:
    FmtResult)
    ensures
        emitted(old(xml)@, final(xml)@, r, attribute_of(attr_key@, value.body_text())),
        r is Err ==> (old(xml)@ + attribute_start(attr_key@)).is_prefix_of(final(xml)@),
        final(final(xml).writer)@ == final(old(xml).writer)@,
{
    xml.attr_start(attr_key)?;
    let ghost opened = xml@;
    match value.ser_body(xml) {
        Ok(()) => {},
        Err(e) => {
            proof {
                lemma_prefix_chain(old(xml)@, opened, xml@);
            }
            return Err(e);
        },
    }
    let r = xml.attr_end();
    proof {
        assert(xml@ =~= old(xml)@ + attribute_of(attr_key@, value.body_text())->0);
    }
    r
}

/// Appends each item as an element named `tag_name`, in order.
pub fn ser_elements<T: SerXml>(items: &[T], xml: &mut XmlBuilder<'_>, tag_name: &str) -> (r:
    FmtResult)
    ensures
        emitted(old(xml)@, final(xml)@, r, elements(items@, tag_name@)),
        final(final(xml).writer)@ == final(old(xml).writer)@,
{
    let mut i: usize = 0;
    proof {
        assert(old(xml)@ + Seq::<char>::empty() =~= old(xml)@);
    }
    while i < items.len()
        invariant
            i <= items@.len(),
            emitted(old(xml)@, xml@, Ok::<(), core::fmt::Error>(()), elements(items@.take(i as int), tag_name@)),
            final(xml.writer)@ == final(old(xml).writer)@,
        decreases items@.len() - i,
    {
        let ghost so_far = xml@;
        let ghost done = items@.take(i as int);
        let ghost next = items@.take(i + 1);
        proof {
            assert(next.drop_last() =~= done);
            assert(next.last() == items@[i as int]);
        }
        match items[i].ser_xml(xml, tag_name) {
            Ok(()) => {
                proof {
                    assert(xml@ =~= old(xml)@ + elements(next, tag_name@)->0);
                }
            },
            Err(e) => {
                proof {
                    lemma_prefix_chain(old(xml)@, so_far, xml@);
                    lemma_elements_fail(items@, i as int, tag_name@);
                }
                return Err(e);
            },
        }
        i += 1;
    }
    proof {
        assert(items@.take(i as int) =~= items@);
    }
    Ok(())
}

/// A sequence with an item that cannot be written cannot be written.
pub proof fn lemma_elements_fail<T: SerXml>(items: Seq<T>, i: int, tag: Seq<char>)
    requires
        0 <= i < items.len(),
        items[i].xml_text(tag) is None,
    ensures
        elements(items, tag) is None,
    decreases items.len(),
{
    if i < items.len() - 1 {
        lemma_elements_fail(items.drop_last(), i, tag);
    }
}

/// An absent value writes nothing, neither as an
/// element nor as an attribute; a present value writes what the value
/// itself writes.
pub proof fn lemma_optional<T: SerXmlAsAttr>(v: T, name: Seq<char>)
    ensures
        None::<T>.xml_text(name) == Some(Seq::<char>::empty()),
        None::<T>.attr_text(name) == Some(Seq::<char>::empty()),
        Some(v).xml_text(name) == v.xml_text(name),
        Some(v).attr_text(name) == attribute_of(name, v.body_text()),
{
}

/// The elements of two sequences, one behind the other, are the elements
/// of the first followed by the elements of the second.
pub proof fn lemma_elements_concat<T: SerXml>(a: Seq<T>, b: Seq<T>, tag: Seq<char>)
    ensures
        elements(a + b, tag) == (match (elements(a, tag), elements(b, tag)) {
            (Some(x), Some(y)) => Some(x + y),
            _ => None,
        }),
    decreases b.len(),
{
    if b.len() == 0 {
        assert(a + b =~= a);
        if elements(a, tag) is Some {
            assert(elements(a, tag)->0 + Seq::<char>::empty() =~= elements(a, tag)->0);
        }
    } else {
        lemma_elements_concat(a, b.drop_last(), tag);
        assert((a + b).drop_last() =~= a + b.drop_last());
        assert((a + b).last() == b.last());
        match (elements(a, tag), elements(b.drop_last(), tag), b.last().xml_text(tag)) {
            (Some(x), Some(y), Some(z)) => {
                assert((x + y) + z =~= x + (y + z));
            },
            _ => {},
        }
    }
}

/// A sequence is written as the elements of its items in the order of
/// the items: what the items before an item write,
/// then what that item writes, then what the items behind it write.
pub proof fn lemma_elements_in_order<T: SerXml>(items: Seq<T>, tag: Seq<char>, i: int)
    requires
        0 <= i < items.len(),
        elements(items, tag) is Some,
    ensures
        elements(items.take(i), tag) is Some,
        items[i].xml_text(tag) is Some,
        elements(items.skip(i + 1), tag) is Some,
        elements(items, tag)->0 == elements(items.take(i), tag)->0 + items[i].xml_text(tag)->0
            + elements(items.skip(i + 1), tag)->0,
{
    let before = items.take(i);
    let one = seq![items[i]];
    let after = items.skip(i + 1);
    assert(items =~= (before + one) + after);
    lemma_elements_concat(before + one, after, tag);
    lemma_elements_concat(before, one, tag);
    assert(one.drop_last() =~= Seq::<T>::empty());
    assert(one.last() == items[i]);
    assert(elements(one.drop_last(), tag) == Some(Seq::<char>::empty()));
    if items[i].xml_text(tag) is Some {
        assert(Seq::<char>::empty() + items[i].xml_text(tag)->0 =~= items[i].xml_text(tag)->0);
    }
}

impl SerXml for String {
    /// A string has no attributes.
    open spec fn attrs_text(&self) -> Option<Seq<char>> {
        Some(Seq::empty())
    }

    /// A string is written as escaped text.
    open spec fn body_text(&self) -> Option<Seq<char>> {
        Some(escape(self@))
    }

    open spec fn xml_text(&self, tag: Seq<char>) -> Option<Seq<char>> {
        element(tag, self.attrs_text(), self.body_text())
    }

    fn ser_body(&self, xml: &mut XmlBuilder<'_>) -> (r: FmtResult) {
        xml.text(self.as_str())
    }

    fn ser_attrs(&self, xml: &mut XmlBuilder<'_>) -> (r: FmtResult) {
        proof {
            assert(xml@ + Seq::<char>::empty() =~= xml@);
        }
        Ok(())
    }

    fn ser_xml(&self, xml: &mut XmlBuilder<'_>, tag_name: &str) -> (r: FmtResult) {
        xml.tag_open_start(tag_name)?;
        xml.tag_open_end()?;
        self.ser_body(xml)?;
        let r = xml.tag_close(tag_name);
        proof {
            assert(xml@ =~= old(xml)@ + self.xml_text(tag_name@)->0);
        }
        r
    }
}

impl SerXmlAsAttr for String {
    open spec fn attr_text(&self, key: Seq<char>) -> Option<Seq<char>> {
        attribute_of(key, self.body_text())
    }

    fn ser_as_attr(&self, xml: &mut XmlBuilder<'_>, attr_key: &str) -> (r: FmtResult) {
        xml.attr_start(attr_key)?;
        self.ser_body(xml)?;
        let r = xml.attr_end();
        proof {
            assert(xml@ =~= old(xml)@ + self.attr_text(attr_key@)->0);
        }
        r
    }
}

impl<T: SerXml> SerXml for Option<T> {
    /// An absent value has no attributes; a present one has its own.
    open spec fn attrs_text(&self) -> Option<Seq<char>> {
        match self {
            Some(t) => t.attrs_text(),
            None => Some(Seq::empty()),
        }
    }

    /// An absent value has an empty body; a present one has its own.
    open spec fn body_text(&self) -> Option<Seq<char>> {
        match self {
            Some(t) => t.body_text(),
            None => Some(Seq::empty()),
        }
    }

    /// An absent value writes nothing, not even a tag; a present one
    /// writes itself.
    open spec fn xml_text(&self, tag: Seq<char>) -> Option<Seq<char>> {
        match self {
            Some(t) => t.xml_text(tag),
            None => Some(Seq::empty()),
        }
    }

    fn ser_body(&self, xml: &mut XmlBuilder<'_>) -> (r: FmtResult) {
        proof {
            assert(xml@ + Seq::<char>::empty() =~= xml@);
        }
        match self {
            Some(t) => t.ser_body(xml),
            None => Ok(()),
        }
    }

    fn ser_attrs(&self, xml: &mut XmlBuilder<'_>) -> (r: FmtResult) {
        proof {
            assert(xml@ + Seq::<char>::empty() =~= xml@);
        }
        match self {
            Some(t) => t.ser_attrs(xml),
            None => Ok(()),
        }
    }

    fn ser_xml(&self, xml: &mut XmlBuilder<'_>, tag_name: &str) -> (r: FmtResult) {
        proof {
            assert(xml@ + Seq::<char>::empty() =~= xml@);
        }
        match self {
            Some(t) => t.ser_xml(xml, tag_name),
            None => Ok(()),
        }
    }
}

impl<T: SerXmlAsAttr> SerXmlAsAttr for Option<T> {
    /// An absent value writes no attribute; a present one writes its body
    /// as the value.
    open spec fn attr_text(&self, key: Seq<char>) -> Option<Seq<char>> {
        match self {
            Some(t) => attribute_of(key, t.body_text()),
            None => Some(Seq::empty()),
        }
    }

    fn ser_as_attr(&self, xml: &mut XmlBuilder<'_>, attr_key: &str) -> (r: FmtResult) {
        proof {
            assert(xml@ + Seq::<char>::empty() =~= xml@);
        }
        match self {
            Some(t) => ser_attribute(t, xml, attr_key),
            None => Ok(()),
        }
    }
}

impl<T: SerXml> SerXml for Vec<T> {
    /// A sequence cannot stand inside an opening tag.
    open spec fn attrs_text(&self) -> Option<Seq<char>> {
        None
    }

    /// A sequence cannot stand as one body.
    open spec fn body_text(&self) -> Option<Seq<char>> {
        None
    }

    /// A sequence is written as one element for each item, all under the
    /// same tag, in order; an empty one writes nothing.
    open spec fn xml_text(&self, tag: Seq<char>) -> Option<Seq<char>> {
        elements(self@, tag)
    }

    /// Fails, whatever the items are, and writes nothing.
    fn ser_body(&self, xml: &mut XmlBuilder<'_>) -> (r: FmtResult)
        ensures
            r is Err,
            final(xml)@ == old(xml)@,
    {
        Err(fmt_error())
    }

    /// Fails, whatever the items are, and writes nothing.
    fn ser_attrs(&self, xml: &mut XmlBuilder<'_>) -> (r: FmtResult)
        ensures
            r is Err,
            final(xml)@ == old(xml)@,
    {
        Err(fmt_error())
    }

    fn ser_xml(&self, xml: &mut XmlBuilder<'_>, tag_name: &str) -> (r: FmtResult) {
        ser_elements(self.as_slice(), xml, tag_name)
    }
}

impl SerXml for i8 {
    open spec fn attrs_text(&self) -> Option<Seq<char>> {
        Some(Seq::empty())
    }

    /// A number is written in decimal, with a `-` in front if it is negative.
    open spec fn body_text(&self) -> Option<Seq<char>> {
        Some(signed_decimal(*self as int))
    }

    open spec fn xml_text(&self, tag: Seq<char>) -> Option<Seq<char>> {
        element(tag, self.attrs_text(), self.body_text())
    }

    fn ser_body(&self, xml: &mut XmlBuilder<'_>) -> (r: FmtResult) {
        push_signed_decimal(xml.writer, *self as i64);
        Ok(())
    }

    fn ser_attrs(&self, xml: &mut XmlBuilder<'_>) -> (r: FmtResult) {
        proof {
            assert(xml@ + Seq::<char>::empty() =~= xml@);
        }
        Ok(())
    }

    fn ser_xml(&self, xml: &mut XmlBuilder<'_>, tag_name: &str) -> (r: FmtResult) {
        xml.tag_open_start(tag_name)?;
        xml.tag_open_end()?;
        self.ser_body(xml)?;
        let r = xml.tag_close(tag_name);
        proof {
            assert(xml@ =~= old(xml)@ + self.xml_text(tag_name@)->0);
        }
        r
    }
}

impl SerXmlAsAttr for i8 {
    open spec fn attr_text(&self, key: Seq<char>) -> Option<Seq<char>> {
        attribute_of(key, self.body_text())
    }

    fn ser_as_attr(&self, xml: &mut XmlBuilder<'_>, attr_key: &str) -> (r: FmtResult) {
        xml.attr_start(attr_key)?;
        self.ser_body(xml)?;
        let r = xml.attr_end();
        proof {
            assert(xml@ =~= old(xml)@ + self.attr_text(attr_key@)->0);
        }
        r
    }
}

impl SerXml for i16 {
    open spec fn attrs_text(&self) -> Option<Seq<char>> {
        Some(Seq::empty())
    }

    /// A number is written in decimal, with a `-` in front if it is negative.
    open spec fn body_text(&self) -> Option<Seq<char>> {
        Some(signed_decimal(*self as int))
    }

    open spec fn xml_text(&self, tag: Seq<char>) -> Option<Seq<char>> {
        element(tag, self.attrs_text(), self.body_text())
    }

    fn ser_body(&self, xml: &mut XmlBuilder<'_>) -> (r: FmtResult) {
        push_signed_decimal(xml.writer, *self as i64);
        Ok(())
    }

    fn ser_attrs(&self, xml: &mut XmlBuilder<'_>) -> (r: FmtResult) {
        proof {
            assert(xml@ + Seq::<char>::empty() =~= xml@);
        }
        Ok(())
    }

    fn ser_xml(&self, xml: &mut XmlBuilder<'_>, tag_name: &str) -> (r: FmtResult) {
        xml.tag_open_start(tag_name)?;
        xml.tag_open_end()?;
        self.ser_body(xml)?;
        let r = xml.tag_close(tag_name);
        proof {
            assert(xml@ =~= old(xml)@ + self.xml_text(tag_name@)->0);
        }
        r
    }
}

impl SerXmlAsAttr for i16 {
    open spec fn attr_text(&self, key: Seq<char>) -> Option<Seq<char>> {
        attribute_of(key, self.body_text())
    }

    fn ser_as_attr(&self, xml: &mut XmlBuilder<'_>, attr_key: &str) -> (r: FmtResult) {
        xml.attr_start(attr_key)?;
        self.ser_body(xml)?;
        let r = xml.attr_end();
        proof {
            assert(xml@ =~= old(xml)@ + self.attr_text(attr_key@)->0);
        }
        r
    }
}

impl SerXml for i32 {
    open spec fn attrs_text(&self) -> Option<Seq<char>> {
        Some(Seq::empty())
    }

    /// A number is written in decimal, with a `-` in front if it is negative.
    open spec fn body_text(&self) -> Option<Seq<char>> {
        Some(signed_decimal(*self as int))
    }

    open spec fn xml_text(&self, tag: Seq<char>) -> Option<Seq<char>> {
        element(tag, self.attrs_text(), self.body_text())
    }

    fn ser_body(&self, xml: &mut XmlBuilder<'_>) -> (r: FmtResult) {
        push_signed_decimal(xml.writer, *self as i64);
        Ok(())
    }

    fn ser_attrs(&self, xml: &mut XmlBuilder<'_>) -> (r: FmtResult) {
        proof {
            assert(xml@ + Seq::<char>::empty() =~= xml@);
        }
        Ok(())
    }

    fn ser_xml(&self, xml: &mut XmlBuilder<'_>, tag_name: &str) -> (r: FmtResult) {
        xml.tag_open_start(tag_name)?;
        xml.tag_open_end()?;
        self.ser_body(xml)?;
        let r = xml.tag_close(tag_name);
        proof {
            assert(xml@ =~= old(xml)@ + self.xml_text(tag_name@)->0);
        }
        r
    }
}

impl SerXmlAsAttr for i32 {
    open spec fn attr_text(&self, key: Seq<char>) -> Option<Seq<char>> {
        attribute_of(key, self.body_text())
    }

    fn ser_as_attr(&self, xml: &mut XmlBuilder<'_>, attr_key: &str) -> (r: FmtResult) {
        xml.attr_start(attr_key)?;
        self.ser_body(xml)?;
        let r = xml.attr_end();
        proof {
            assert(xml@ =~= old(xml)@ + self.attr_text(attr_key@)->0);
        }
        r
    }
}

impl SerXml for i64 {
    open spec fn attrs_text(&self) -> Option<Seq<char>> {
        Some(Seq::empty())
    }

    /// A number is written in decimal, with a `-` in front if it is negative.
    open spec fn body_text(&self) -> Option<Seq<char>> {
        Some(signed_decimal(*self as int))
    }

    open spec fn xml_text(&self, tag: Seq<char>) -> Option<Seq<char>> {
        element(tag, self.attrs_text(), self.body_text())
    }

    fn ser_body(&self, xml: &mut XmlBuilder<'_>) -> (r: FmtResult) {
        push_signed_decimal(xml.writer, *self as i64);
        Ok(())
    }

    fn ser_attrs(&self, xml: &mut XmlBuilder<'_>) -> (r: FmtResult) {
        proof {
            assert(xml@ + Seq::<char>::empty() =~= xml@);
        }
        Ok(())
    }

    fn ser_xml(&self, xml: &mut XmlBuilder<'_>, tag_name: &str) -> (r: FmtResult) {
        xml.tag_open_start(tag_name)?;
        xml.tag_open_end()?;
        self.ser_body(xml)?;
        let r = xml.tag_close(tag_name);
        proof {
            assert(xml@ =~= old(xml)@ + self.xml_text(tag_name@)->0);
        }
        r
    }
}

impl SerXmlAsAttr for i64 {
    open spec fn attr_text(&self, key: Seq<char>) -> Option<Seq<char>> {
        attribute_of(key, self.body_text())
    }

    fn ser_as_attr(&self, xml: &mut XmlBuilder<'_>, attr_key: &str) -> (r: FmtResult) {
        xml.attr_start(attr_key)?;
        self.ser_body(xml)?;
        let r = xml.attr_end();
        proof {
            assert(xml@ =~= old(xml)@ + self.attr_text(attr_key@)->0);
        }
        r
    }
}

impl SerXml for isize {
    open spec fn attrs_text(&self) -> Option<Seq<char>> {
        Some(Seq::empty())
    }

    /// A number is written in decimal, with a `-` in front if it is negative.
    open spec fn body_text(&self) -> Option<Seq<char>> {
        Some(signed_decimal(*self as int))
    }

    open spec fn xml_text(&self, tag: Seq<char>) -> Option<Seq<char>> {
        element(tag, self.attrs_text(), self.body_text())
    }

    fn ser_body(&self, xml: &mut XmlBuilder<'_>) -> (r: FmtResult) {
        push_signed_decimal(xml.writer, *self as i64);
        Ok(())
    }

    fn ser_attrs(&self, xml: &mut XmlBuilder<'_>) -> (r: FmtResult) {
        proof {
            assert(xml@ + Seq::<char>::empty() =~= xml@);
        }
        Ok(())
    }

    fn ser_xml(&self, xml: &mut XmlBuilder<'_>, tag_name: &str) -> (r: FmtResult) {
        xml.tag_open_start(tag_name)?;
        xml.tag_open_end()?;
        self.ser_body(xml)?;
        let r = xml.tag_close(tag_name);
        proof {
            assert(xml@ =~= old(xml)@ + self.xml_text(tag_name@)->0);
        }
        r
    }
}

impl SerXmlAsAttr for isize {
    open spec fn attr_text(&self, key: Seq<char>) -> Option<Seq<char>> {
        attribute_of(key, self.body_text())
    }

    fn ser_as_attr(&self, xml: &mut XmlBuilder<'_>, attr_key: &str) -> (r: FmtResult) {
        xml.attr_start(attr_key)?;
        self.ser_body(xml)?;
        let r = xml.attr_end();
        proof {
            assert(xml@ =~= old(xml)@ + self.attr_text(attr_key@)->0);
        }
        r
    }
}

impl SerXml for u8 {
    open spec fn attrs_text(&self) -> Option<Seq<char>> {
        Some(Seq::empty())
    }

    /// A number is written in decimal.
    open spec fn body_text(&self) -> Option<Seq<char>> {
        Some(signed_decimal(*self as int))
    }

    open spec fn xml_text(&self, tag: Seq<char>) -> Option<Seq<char>> {
        element(tag, self.attrs_text(), self.body_text())
    }

    fn ser_body(&self, xml: &mut XmlBuilder<'_>) -> (r: FmtResult) {
        push_decimal(xml.writer, *self as u64);
        Ok(())
    }

    fn ser_attrs(&self, xml: &mut XmlBuilder<'_>) -> (r: FmtResult) {
        proof {
            assert(xml@ + Seq::<char>::empty() =~= xml@);
        }
        Ok(())
    }

    fn ser_xml(&self, xml: &mut XmlBuilder<'_>, tag_name: &str) -> (r: FmtResult) {
        xml.tag_open_start(tag_name)?;
        xml.tag_open_end()?;
        self.ser_body(xml)?;
        let r = xml.tag_close(tag_name);
        proof {
            assert(xml@ =~= old(xml)@ + self.xml_text(tag_name@)->0);
        }
        r
    }
}

impl SerXmlAsAttr for u8 {
    open spec fn attr_text(&self, key: Seq<char>) -> Option<Seq<char>> {
        attribute_of(key, self.body_text())
    }

    fn ser_as_attr(&self, xml: &mut XmlBuilder<'_>, attr_key: &str) -> (r: FmtResult) {
        xml.attr_start(attr_key)?;
        self.ser_body(xml)?;
        let r = xml.attr_end();
        proof {
            assert(xml@ =~= old(xml)@ + self.attr_text(attr_key@)->0);
        }
        r
    }
}

impl SerXml for u16 {
    open spec fn attrs_text(&self) -> Option<Seq<char>> {
        Some(Seq::empty())
    }

    /// A number is written in decimal.
    open spec fn body_text(&self) -> Option<Seq<char>> {
        Some(signed_decimal(*self as int))
    }

    open spec fn xml_text(&self, tag: Seq<char>) -> Option<Seq<char>> {
        element(tag, self.attrs_text(), self.body_text())
    }

    fn ser_body(&self, xml: &mut XmlBuilder<'_>) -> (r: FmtResult) {
        push_decimal(xml.writer, *self as u64);
        Ok(())
    }

    fn ser_attrs(&self, xml: &mut XmlBuilder<'_>) -> (r: FmtResult) {
        proof {
            assert(xml@ + Seq::<char>::empty() =~= xml@);
        }
        Ok(())
    }

    fn ser_xml(&self, xml: &mut XmlBuilder<'_>, tag_name: &str) -> (r: FmtResult) {
        xml.tag_open_start(tag_name)?;
        xml.tag_open_end()?;
        self.ser_body(xml)?;
        let r = xml.tag_close(tag_name);
        proof {
            assert(xml@ =~= old(xml)@ + self.xml_text(tag_name@)->0);
        }
        r
    }
}

impl SerXmlAsAttr for u16 {
    open spec fn attr_text(&self, key: Seq<char>) -> Option<Seq<char>> {
        attribute_of(key, self.body_text())
    }

    fn ser_as_attr(&self, xml: &mut XmlBuilder<'_>, attr_key: &str) -> (r: FmtResult) {
        xml.attr_start(attr_key)?;
        self.ser_body(xml)?;
        let r = xml.attr_end();
        proof {
            assert(xml@ =~= old(xml)@ + self.attr_text(attr_key@)->0);
        }
        r
    }
}

impl SerXml for u32 {
    open spec fn attrs_text(&self) -> Option<Seq<char>> {
        Some(Seq::empty())
    }

    /// A number is written in decimal.
    open spec fn body_text(&self) -> Option<Seq<char>> {
        Some(signed_decimal(*self as int))
    }

    open spec fn xml_text(&self, tag: Seq<char>) -> Option<Seq<char>> {
        element(tag, self.attrs_text(), self.body_text())
    }

    fn ser_body(&self, xml: &mut XmlBuilder<'_>) -> (r: FmtResult) {
        push_decimal(xml.writer, *self as u64);
        Ok(())
    }

    fn ser_attrs(&self, xml: &mut XmlBuilder<'_>) -> (r: FmtResult) {
        proof {
            assert(xml@ + Seq::<char>::empty() =~= xml@);
        }
        Ok(())
    }

    fn ser_xml(&self, xml: &mut XmlBuilder<'_>, tag_name: &str) -> (r: FmtResult) {
        xml.tag_open_start(tag_name)?;
        xml.tag_open_end()?;
        self.ser_body(xml)?;
        let r = xml.tag_close(tag_name);
        proof {
            assert(xml@ =~= old(xml)@ + self.xml_text(tag_name@)->0);
        }
        r
    }
}

impl SerXmlAsAttr for u32 {
    open spec fn attr_text(&self, key: Seq<char>) -> Option<Seq<char>> {
        attribute_of(key, self.body_text())
    }

    fn ser_as_attr(&self, xml: &mut XmlBuilder<'_>, attr_key: &str) -> (r: FmtResult) {
        xml.attr_start(attr_key)?;
        self.ser_body(xml)?;
        let r = xml.attr_end();
        proof {
            assert(xml@ =~= old(xml)@ + self.attr_text(attr_key@)->0);
        }
        r
    }
}

impl SerXml for u64 {
    open spec fn attrs_text(&self) -> Option<Seq<char>> {
        Some(Seq::empty())
    }

    /// A number is written in decimal.
    open spec fn body_text(&self) -> Option<Seq<char>> {
        Some(signed_decimal(*self as int))
    }

    open spec fn xml_text(&self, tag: Seq<char>) -> Option<Seq<char>> {
        element(tag, self.attrs_text(), self.body_text())
    }

    fn ser_body(&self, xml: &mut XmlBuilder<'_>) -> (r: FmtResult) {
        push_decimal(xml.writer, *self as u64);
        Ok(())
    }

    fn ser_attrs(&self, xml: &mut XmlBuilder<'_>) -> (r: FmtResult) {
        proof {
            assert(xml@ + Seq::<char>::empty() =~= xml@);
        }
        Ok(())
    }

    fn ser_xml(&self, xml: &mut XmlBuilder<'_>, tag_name: &str) -> (r: FmtResult) {
        xml.tag_open_start(tag_name)?;
        xml.tag_open_end()?;
        self.ser_body(xml)?;
        let r = xml.tag_close(tag_name);
        proof {
            assert(xml@ =~= old(xml)@ + self.xml_text(tag_name@)->0);
        }
        r
    }
}

impl SerXmlAsAttr for u64 {
    open spec fn attr_text(&self, key: Seq<char>) -> Option<Seq<char>> {
        attribute_of(key, self.body_text())
    }

    fn ser_as_attr(&self, xml: &mut XmlBuilder<'_>, attr_key: &str) -> (r: FmtResult) {
        xml.attr_start(attr_key)?;
        self.ser_body(xml)?;
        let r = xml.attr_end();
        proof {
            assert(xml@ =~= old(xml)@ + self.attr_text(attr_key@)->0);
        }
        r
    }
}

impl SerXml for usize {
    open spec fn attrs_text(&self) -> Option<Seq<char>> {
        Some(Seq::empty())
    }

    /// A number is written in decimal.
    open spec fn body_text(&self) -> Option<Seq<char>> {
        Some(signed_decimal(*self as int))
    }

    open spec fn xml_text(&self, tag: Seq<char>) -> Option<Seq<char>> {
        element(tag, self.attrs_text(), self.body_text())
    }

    fn ser_body(&self, xml: &mut XmlBuilder<'_>) -> (r: FmtResult) {
        push_decimal(xml.writer, *self as u64);
        Ok(())
    }

    fn ser_attrs(&self, xml: &mut XmlBuilder<'_>) -> (r: FmtResult) {
        proof {
            assert(xml@ + Seq::<char>::empty() =~= xml@);
        }
        Ok(())
    }

    fn ser_xml(&self, xml: &mut XmlBuilder<'_>, tag_name: &str) -> (r: FmtResult) {
        xml.tag_open_start(tag_name)?;
        xml.tag_open_end()?;
        self.ser_body(xml)?;
        let r = xml.tag_close(tag_name);
        proof {
            assert(xml@ =~= old(xml)@ + self.xml_text(tag_name@)->0);
        }
        r
    }
}

impl SerXmlAsAttr for usize {
    open spec fn attr_text(&self, key: Seq<char>) -> Option<Seq<char>> {
        attribute_of(key, self.body_text())
    }

    fn ser_as_attr(&self, xml: &mut XmlBuilder<'_>, attr_key: &str) -> (r: FmtResult) {
        xml.attr_start(attr_key)?;
        self.ser_body(xml)?;
        let r = xml.attr_end();
        proof {
            assert(xml@ =~= old(xml)@ + self.attr_text(attr_key@)->0);
        }
        r
    }
}

impl SerXml for bool {
    open spec fn attrs_text(&self) -> Option<Seq<char>> {
        Some(Seq::empty())
    }

    /// A truth value is written as `true` or `false`.
    open spec fn body_text(&self) -> Option<Seq<char>> {
        Some(bool_text(*self))
    }

    open spec fn xml_text(&self, tag: Seq<char>) -> Option<Seq<char>> {
        element(tag, self.attrs_text(), self.body_text())
    }

    fn ser_body(&self, xml: &mut XmlBuilder<'_>) -> (r: FmtResult) {
        push_bool(xml.writer, *self);
        Ok(())
    }

    fn ser_attrs(&self, xml: &mut XmlBuilder<'_>) -> (r: FmtResult) {
        proof {
            assert(xml@ + Seq::<char>::empty() =~= xml@);
        }
        Ok(())
    }

    fn ser_xml(&self, xml: &mut XmlBuilder<'_>, tag_name: &str) -> (r: FmtResult) {
        xml.tag_open_start(tag_name)?;
        xml.tag_open_end()?;
        self.ser_body(xml)?;
        let r = xml.tag_close(tag_name);
        proof {
            assert(xml@ =~= old(xml)@ + self.xml_text(tag_name@)->0);
        }
        r
    }
}

impl SerXmlAsAttr for bool {
    open spec fn attr_text(&self, key: Seq<char>) -> Option<Seq<char>> {
        attribute_of(key, self.body_text())
    }

    fn ser_as_attr(&self, xml: &mut XmlBuilder<'_>, attr_key: &str) -> (r: FmtResult) {
        xml.attr_start(attr_key)?;
        self.ser_body(xml)?;
        let r = xml.attr_end();
        proof {
            assert(xml@ =~= old(xml)@ + self.attr_text(attr_key@)->0);
        }
        r
    }
}

impl SerXml for str {
    open spec fn attrs_text(&self) -> Option<Seq<char>> {
        Some(Seq::empty())
    }

    /// A string is written as escaped text.
    open spec fn body_text(&self) -> Option<Seq<char>> {
        Some(escape(self@))
    }

    open spec fn xml_text(&self, tag: Seq<char>) -> Option<Seq<char>> {
        element(tag, self.attrs_text(), self.body_text())
    }

    fn ser_body(&self, xml: &mut XmlBuilder<'_>) -> (r: FmtResult) {
        xml.text(self)
    }

    fn ser_attrs(&self, xml: &mut XmlBuilder<'_>) -> (r: FmtResult) {
        proof {
            assert(xml@ + Seq::<char>::empty() =~= xml@);
        }
        Ok(())
    }

    fn ser_xml(&self, xml: &mut XmlBuilder<'_>, tag_name: &str) -> (r: FmtResult) {
        xml.tag_open_start(tag_name)?;
        xml.tag_open_end()?;
        self.ser_body(xml)?;
        let r = xml.tag_close(tag_name);
        proof {
            assert(xml@ =~= old(xml)@ + self.xml_text(tag_name@)->0);
        }
        r
    }
}

impl SerXmlAsAttr for str {
    open spec fn attr_text(&self, key: Seq<char>) -> Option<Seq<char>> {
        attribute_of(key, self.body_text())
    }

    fn ser_as_attr(&self, xml: &mut XmlBuilder<'_>, attr_key: &str) -> (r: FmtResult) {
        xml.attr_start(attr_key)?;
        self.ser_body(xml)?;
        let r = xml.attr_end();
        proof {
            assert(xml@ =~= old(xml)@ + self.attr_text(attr_key@)->0);
        }
        r
    }
}

impl<'a> SerXml for Cow<'a, str> {
    open spec fn attrs_text(&self) -> Option<Seq<char>> {
        Some(Seq::empty())
    }

    /// A string is written as escaped text.
    open spec fn body_text(&self) -> Option<Seq<char>> {
        Some(escape(self@))
    }

    open spec fn xml_text(&self, tag: Seq<char>) -> Option<Seq<char>> {
        element(tag, self.attrs_text(), self.body_text())
    }

    fn ser_body(&self, xml: &mut XmlBuilder<'_>) -> (r: FmtResult) {
        xml.text(cow_str(self))
    }

    fn ser_attrs(&self, xml: &mut XmlBuilder<'_>) -> (r: FmtResult) {
        proof {
            assert(xml@ + Seq::<char>::empty() =~= xml@);
        }
        Ok(())
    }

    fn ser_xml(&self, xml: &mut XmlBuilder<'_>, tag_name: &str) -> (r: FmtResult) {
        xml.tag_open_start(tag_name)?;
        xml.tag_open_end()?;
        self.ser_body(xml)?;
        let r = xml.tag_close(tag_name);
        proof {
            assert(xml@ =~= old(xml)@ + self.xml_text(tag_name@)->0);
        }
        r
    }
}

impl<'a> SerXmlAsAttr for Cow<'a, str> {
    open spec fn attr_text(&self, key: Seq<char>) -> Option<Seq<char>> {
        attribute_of(key, self.body_text())
    }

    fn ser_as_attr(&self, xml: &mut XmlBuilder<'_>, attr_key: &str) -> (r: FmtResult) {
        xml.attr_start(attr_key)?;
        self.ser_body(xml)?;
        let r = xml.attr_end();
        proof {
            assert(xml@ =~= old(xml)@ + self.attr_text(attr_key@)->0);
        }
        r
    }
}

impl<'a> SerXml for XmlStr<'a> {
    open spec fn attrs_text(&self) -> Option<Seq<char>> {
        Some(Seq::empty())
    }

    /// Raw text is written as it was read: its entity references stand.
    open spec fn body_text(&self) -> Option<Seq<char>> {
        Some(self@)
    }

    open spec fn xml_text(&self, tag: Seq<char>) -> Option<Seq<char>> {
        element(tag, self.attrs_text(), self.body_text())
    }

    fn ser_body(&self, xml: &mut XmlBuilder<'_>) -> (r: FmtResult) {
        xml.write_str(self.raw())
    }

    fn ser_attrs(&self, xml: &mut XmlBuilder<'_>) -> (r: FmtResult) {
        proof {
            assert(xml@ + Seq::<char>::empty() =~= xml@);
        }
        Ok(())
    }

    fn ser_xml(&self, xml: &mut XmlBuilder<'_>, tag_name: &str) -> (r: FmtResult) {
        xml.tag_open_start(tag_name)?;
        xml.tag_open_end()?;
        self.ser_body(xml)?;
        let r = xml.tag_close(tag_name);
        proof {
            assert(xml@ =~= old(xml)@ + self.xml_text(tag_name@)->0);
        }
        r
    }
}

impl<'a> SerXmlAsAttr for XmlStr<'a> {
    open spec fn attr_text(&self, key: Seq<char>) -> Option<Seq<char>> {
        attribute_of(key, self.body_text())
    }

    fn ser_as_attr(&self, xml: &mut XmlBuilder<'_>, attr_key: &str) -> (r: FmtResult) {
        xml.attr_start(attr_key)?;
        self.ser_body(xml)?;
        let r = xml.attr_end();
        proof {
            assert(xml@ =~= old(xml)@ + self.attr_text(attr_key@)->0);
        }
        r
    }
}

impl SerXml for RawXml {
    open spec fn attrs_text(&self) -> Option<Seq<char>> {
        Some(Seq::empty())
    }

    /// Markup is written as it is, unescaped.
    open spec fn body_text(&self) -> Option<Seq<char>> {
        Some(self.0@)
    }

    open spec fn xml_text(&self, tag: Seq<char>) -> Option<Seq<char>> {
        element(tag, self.attrs_text(), self.body_text())
    }

    fn ser_body(&self, xml: &mut XmlBuilder<'_>) -> (r: FmtResult) {
        xml.write_str(self.0.as_str())
    }

    fn ser_attrs(&self, xml: &mut XmlBuilder<'_>) -> (r: FmtResult) {
        proof {
            assert(xml@ + Seq::<char>::empty() =~= xml@);
        }
        Ok(())
    }

    fn ser_xml(&self, xml: &mut XmlBuilder<'_>, tag_name: &str) -> (r: FmtResult) {
        xml.tag_open_start(tag_name)?;
        xml.tag_open_end()?;
        self.ser_body(xml)?;
        let r = xml.tag_close(tag_name);
        proof {
            assert(xml@ =~= old(xml)@ + self.xml_text(tag_name@)->0);
        }
        r
    }
}

impl SerXmlAsAttr for RawXml {
    open spec fn attr_text(&self, key: Seq<char>) -> Option<Seq<char>> {
        attribute_of(key, self.body_text())
    }

    fn ser_as_attr(&self, xml: &mut XmlBuilder<'_>, attr_key: &str) -> (r: FmtResult) {
        xml.attr_start(attr_key)?;
        self.ser_body(xml)?;
        let r = xml.attr_end();
        proof {
            assert(xml@ =~= old(xml)@ + self.attr_text(attr_key@)->0);
        }
        r
    }
}

impl<T: SerXml> SerXml for [T] {
    /// A sequence cannot stand inside an opening tag.
    open spec fn attrs_text(&self) -> Option<Seq<char>> {
        None
    }

    /// A sequence cannot stand as one body.
    open spec fn body_text(&self) -> Option<Seq<char>> {
        None
    }

    /// A sequence is written as one element for each item, all under the
    /// same tag, in order; an empty one writes nothing.
    open spec fn xml_text(&self, tag: Seq<char>) -> Option<Seq<char>> {
        elements(self@, tag)
    }

    /// Fails, whatever the items are, and writes nothing.
    fn ser_body(&self, xml: &mut XmlBuilder<'_>) -> (r: FmtResult)
        ensures
            r is Err,
            final(xml)@ == old(xml)@,
    {
        Err(fmt_error())
    }

    /// Fails, whatever the items are, and writes nothing.
    fn ser_attrs(&self, xml: &mut XmlBuilder<'_>) -> (r: FmtResult)
        ensures
            r is Err,
            final(xml)@ == old(xml)@,
    {
        Err(fmt_error())
    }

    fn ser_xml(&self, xml: &mut XmlBuilder<'_>, tag_name: &str) -> (r: FmtResult) {
        ser_elements(self, xml, tag_name)
    }
}

impl<T: SerXml, const N: usize> SerXml for [T; N] {
    /// A sequence cannot stand inside an opening tag.
    open spec fn attrs_text(&self) -> Option<Seq<char>> {
        None
    }

    /// A sequence cannot stand as one body.
    open spec fn body_text(&self) -> Option<Seq<char>> {
        None
    }

    /// A sequence is written as one element for each item, all under the
    /// same tag, in order.
    open spec fn xml_text(&self, tag: Seq<char>) -> Option<Seq<char>> {
        elements(self@, tag)
    }

    /// Fails, whatever the items are, and writes nothing.
    fn ser_body(&self, xml: &mut XmlBuilder<'_>) -> (r: FmtResult)
        ensures
            r is Err,
            final(xml)@ == old(xml)@,
    {
        Err(fmt_error())
    }

    /// Fails, whatever the items are, and writes nothing.
    fn ser_attrs(&self, xml: &mut XmlBuilder<'_>) -> (r: FmtResult)
        ensures
            r is Err,
            final(xml)@ == old(xml)@,
    {
        Err(fmt_error())
    }

    fn ser_xml(&self, xml: &mut XmlBuilder<'_>, tag_name: &str) -> (r: FmtResult) {
        ser_elements(self.as_slice(), xml, tag_name)
    }
}

impl<T: SerXml + ?Sized> SerXml for &T {
    open spec fn attrs_text(&self) -> Option<Seq<char>> {
        (**self).attrs_text()
    }

    open spec fn body_text(&self) -> Option<Seq<char>> {
        (**self).body_text()
    }

    /// A reference is written as one element, made of the attributes and
    /// the body of what it refers to.
    open spec fn xml_text(&self, tag: Seq<char>) -> Option<Seq<char>> {
        element(tag, self.attrs_text(), self.body_text())
    }

    fn ser_body(&self, xml: &mut XmlBuilder<'_>) -> (r: FmtResult) {
        (**self).ser_body(xml)
    }

    fn ser_attrs(&self, xml: &mut XmlBuilder<'_>) -> (r: FmtResult) {
        (**self).ser_attrs(xml)
    }

    fn ser_xml(&self, xml: &mut XmlBuilder<'_>, tag_name: &str) -> (r: FmtResult) {
        ser_element::<T>(*self, xml, tag_name)
    }
}

impl<T: SerXmlAsAttr + ?Sized> SerXmlAsAttr for &T {
    open spec fn attr_text(&self, key: Seq<char>) -> Option<Seq<char>> {
        attribute_of(key, self.body_text())
    }

    fn ser_as_attr(&self, xml: &mut XmlBuilder<'_>, attr_key: &str) -> (r: FmtResult) {
        ser_attribute::<T>(*self, xml, attr_key)
    }
}

/// Markup that is written as it is. The caller answers for its being
/// well-formed.
#[derive(Clone, Debug, Eq, Hash, Ord, PartialEq, PartialOrd)]
pub struct RawXml(pub String);

impl From<String> for RawXml {
    fn from(value: String) -> (r: Self) {
        Self(value)
    }
}

impl vstd::std_specs::convert::FromSpecImpl<String> for RawXml {
    open spec fn obeys_from_spec() -> bool {
        true
    }

    open spec fn from_spec(value: String) -> Self {
        RawXml(value)
    }
}

/// The string that a `Cow` holds or borrows.
fn cow_str<'b>(c: &'b Cow<'_, str>) -> (r: &'b str)
    ensures
        r@ == c@,
{
    match c {
        Cow::Borrowed(s) => s,
        Cow::Owned(s) => s.as_str(),
    }
}

impl SerXmlNoAttrs for i8 {

}

impl SerXmlNoAttrs for i16 {

}

impl SerXmlNoAttrs for i32 {

}

impl SerXmlNoAttrs for i64 {

}

impl SerXmlNoAttrs for isize {

}

impl SerXmlNoAttrs for u8 {

}

impl SerXmlNoAttrs for u16 {

}

impl SerXmlNoAttrs for u32 {

}

impl SerXmlNoAttrs for u64 {

}

impl SerXmlNoAttrs for usize {

}

impl SerXmlNoAttrs for bool {

}

impl SerXmlNoAttrs for str {

}

impl SerXmlNoAttrs for String {

}

impl<'a> SerXmlNoAttrs for Cow<'a, str> {

}

impl<'a> SerXmlNoAttrs for XmlStr<'a> {

}

impl SerXmlNoAttrs for RawXml {

}

impl<T: SerXmlNoAttrs> SerXmlNoAttrs for Option<T> {

}

impl<T: SerXmlNoAttrs + ?Sized> SerXmlNoAttrs for &T {

}

} // verus!
