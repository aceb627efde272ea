//! Reading values: how each kind of value is rebuilt from tokens.
//!
//! A value that can be read says in spec functions which inputs it accepts
//! and which value an accepted input stands for; the reading function is
//! held to them.

use std::borrow::Cow;
use vstd::prelude::*;
use vstd::utf8::encode_utf8;
use crate::de::{XmlError, XmlParser, XmlStr};
use crate::decimal::{parse_bool, parse_signed, parse_truth, parse_unsigned, parse_within};
use crate::escape::{has_entity, unescape};
use crate::grammar;
use crate::grammar::Cursor;
use crate::text::trimmed;

verus! {

/// A value that can be read from an element.
pub trait DeXml<'a>: Sized + 'a {
    /// Where reading a value ends that starts at `c`, behind the name of
    /// its opening tag; or why there is no value to read. A type that does
    /// not say leaves it open, and so for the other spec functions here.
    open spec fn de_end(src: Seq<u8>, c: Cursor) -> Result<Cursor, XmlError> {
        arbitrary()
    }

    /// Whether `v` is the value that stands at `c`.
    open spec fn de_value(src: Seq<u8>, c: Cursor, v: Self) -> bool {
        arbitrary()
    }

    /// Reads a value, from behind the name of its opening tag through its
    /// closing tag.
    fn de_xml(parser: &mut XmlParser<'a>) -> (r: Result<Self, XmlError>)
        ensures
            final(parser).moved_on_from(old(parser)),
            match Self::de_end(old(parser).source(), old(parser).state()) {
                Ok(c) => r matches Ok(v) && Self::de_value(
                    old(parser).source(),
                    old(parser).state(),
                    v,
                ) && final(parser).state() == c,
                Err(e) => r matches Err(x) && x == e,
            },
    ;
}

/// A value that can be read from the raw text of an attribute, or of a leaf.
pub trait DeXmlAttr<'a>: Sized + 'a {
    /// Why `raw` stands for no value; `None` if it stands for one. A type
    /// that does not say leaves it open.
    open spec fn attr_error(raw: Seq<char>) -> Option<XmlError> {
        arbitrary()
    }

    /// Whether `v` is the value that `raw` stands for.
    open spec fn attr_value(raw: Seq<char>, v: Self) -> bool {
        arbitrary()
    }

    /// Reads a value from raw text. No token is consumed.
    fn de_xml_attr(s: XmlStr<'a>) -> (r: Result<Self, XmlError>)
        ensures
            match Self::attr_error(s@) {
                None => r matches Ok(v) && Self::attr_value(s@, v),
                Some(e) => r matches Err(x) && x == e,
            },
    ;
}

/// Every value that can be read from raw text can be read from an element:
/// the element must end its opening tag, hold one text or none, and close.
/// An element without text is read from the empty text.
impl<'a, T: DeXmlAttr<'a>> DeXml<'a> for T {
    open spec fn de_end(src: Seq<u8>, c: Cursor) -> Result<Cursor, XmlError> {
        match grammar::leaf_element(src, c) {
            Err(e) => Err(e),
            Ok((raw, end)) => match T::attr_error(raw) {
                Some(e) => Err(e),
                None => Ok(end),
            },
        }
    }

    open spec fn de_value(src: Seq<u8>, c: Cursor, v: Self) -> bool {
        match grammar::leaf_element(src, c) {
            Err(_) => false,
            Ok((raw, _)) => T::attr_value(raw, v),
        }
    }

    fn de_xml(parser: &mut XmlParser<'a>) -> (r: Result<Self, XmlError>) {
        proof {
            reveal_strlit("");
            assert(""@ =~= Seq::<char>::empty());
        }
        parser.tag_open_end()?;
        let s = parser.text_and_tag_close("")?;
        Self::de_xml_attr(s)
    }
}

/// Where the value of a root element named `tag` ends in the document
/// `src`, or why it cannot be read: the root must carry that tag, its value
/// must read, and nothing but whitespace may follow.
pub open spec fn document_end<'a, T: DeXml<'a>>(src: Seq<u8>, tag: Seq<char>) -> Result<
    Cursor,
    XmlError,
> {
    match grammar::open_start(src, grammar::start(), tag) {
        Err(e) => Err(e),
        Ok(c) => match T::de_end(src, c) {
            Err(e) => Err(e),
            Ok(end) => if grammar::at_end(src, end) {
                Ok(end)
            } else {
                Err(XmlError::TrailingChars)
            },
        },
    }
}

/// A record with a fixed tag, which can be read from a whole document.
pub trait DeXmlTopLevel<'a>: DeXml<'a> {
    /// The tag of the root element.
    const TAG_NAME: &'static str;

    /// Reads the value of the document in `s`.
    fn deserialize_str(s: &'a str) -> (r: Result<Self, XmlError>)
        ensures
            ({
                let text = encode_utf8(trimmed(s@));
                match grammar::document_start(text) {
                    Err(e) => r matches Err(x) && x == e,
                    Ok(k) => {
                        let src = text.subrange(k, text.len() as int);
                        match document_end::<Self>(src, Self::TAG_NAME@) {
                            Err(e) => r matches Err(x) && x == e,
                            Ok(_) => r matches Ok(v) && Self::de_value(
                                src,
                                grammar::open_start(src, grammar::start(), Self::TAG_NAME@)->Ok_0,
                                v,
                            ),
                        }
                    },
                }
            }),
    {
        let mut parser = XmlParser::new(s)?;
        parser.tag_open_start(Self::TAG_NAME)?;
        let ret = Self::de_xml(&mut parser)?;
        parser.check_end()?;
        Ok(ret)
    }
}

/// Why raw text is no number between `lo` and `hi`; `None` if it is one.
pub open spec fn number_error(raw: Seq<char>, signed: bool, lo: int, hi: int) -> Option<XmlError> {
    if parse_within(raw, signed, lo, hi) is Some {
        None
    } else {
        Some(XmlError::InvalidValue)
    }
}

impl<'a> DeXmlAttr<'a> for u8 {
    open spec fn attr_error(raw: Seq<char>) -> Option<XmlError> {
        number_error(raw, false, u8::MIN as int, u8::MAX as int)
    }

    /// A number is read from the raw text: a sign, if any, and digits.
    open spec fn attr_value(raw: Seq<char>, v: Self) -> bool {
        parse_within(raw, false, u8::MIN as int, u8::MAX as int) == Some(v as int)
    }

    fn de_xml_attr(s: XmlStr<'a>) -> (r: Result<Self, XmlError>) {
        match parse_unsigned(s.raw(), u8::MAX as u64) {
            Some(v) => Ok(v as u8),
            None => Err(XmlError::InvalidValue),
        }
    }
}

impl<'a> DeXmlAttr<'a> for u16 {
    open spec fn attr_error(raw: Seq<char>) -> Option<XmlError> {
        number_error(raw, false, u16::MIN as int, u16::MAX as int)
    }

    /// A number is read from the raw text: a sign, if any, and digits.
    open spec fn attr_value(raw: Seq<char>, v: Self) -> bool {
        parse_within(raw, false, u16::MIN as int, u16::MAX as int) == Some(v as int)
    }

    fn de_xml_attr(s: XmlStr<'a>) -> (r: Result<Self, XmlError>) {
        match parse_unsigned(s.raw(), u16::MAX as u64) {
            Some(v) => Ok(v as u16),
            None => Err(XmlError::InvalidValue),
        }
    }
}

impl<'a> DeXmlAttr<'a> for u32 {
    open spec fn attr_error(raw: Seq<char>) -> Option<XmlError> {
        number_error(raw, false, u32::MIN as int, u32::MAX as int)
    }

    /// A number is read from the raw text: a sign, if any, and digits.
    open spec fn attr_value(raw: Seq<char>, v: Self) -> bool {
        parse_within(raw, false, u32::MIN as int, u32::MAX as int) == Some(v as int)
    }

    fn de_xml_attr(s: XmlStr<'a>) -> (r: Result<Self, XmlError>) {
        match parse_unsigned(s.raw(), u32::MAX as u64) {
            Some(v) => Ok(v as u32),
            None => Err(XmlError::InvalidValue),
        }
    }
}

impl<'a> DeXmlAttr<'a> for u64 {
    open spec fn attr_error(raw: Seq<char>) -> Option<XmlError> {
        number_error(raw, false, u64::MIN as int, u64::MAX as int)
    }

    /// A number is read from the raw text: a sign, if any, and digits.
    open spec fn attr_value(raw: Seq<char>, v: Self) -> bool {
        parse_within(raw, false, u64::MIN as int, u64::MAX as int) == Some(v as int)
    }

    fn de_xml_attr(s: XmlStr<'a>) -> (r: Result<Self, XmlError>) {
        match parse_unsigned(s.raw(), u64::MAX as u64) {
            Some(v) => Ok(v as u64),
            None => Err(XmlError::InvalidValue),
        }
    }
}

impl<'a> DeXmlAttr<'a> for i8 {
    open spec fn attr_error(raw: Seq<char>) -> Option<XmlError> {
        number_error(raw, true, i8::MIN as int, i8::MAX as int)
    }

    /// A number is read from the raw text: a sign, if any, and digits.
    open spec fn attr_value(raw: Seq<char>, v: Self) -> bool {
        parse_within(raw, true, i8::MIN as int, i8::MAX as int) == Some(v as int)
    }

    fn de_xml_attr(s: XmlStr<'a>) -> (r: Result<Self, XmlError>) {
        match parse_signed(s.raw(), i8::MIN as i64, i8::MAX as i64) {
            Some(v) => Ok(v as i8),
            None => Err(XmlError::InvalidValue),
        }
    }
}

impl<'a> DeXmlAttr<'a> for i16 {
    open spec fn attr_error(raw: Seq<char>) -> Option<XmlError> {
        number_error(raw, true, i16::MIN as int, i16::MAX as int)
    }

    /// A number is read from the raw text: a sign, if any, and digits.
    open spec fn attr_value(raw: Seq<char>, v: Self) -> bool {
        parse_within(raw, true, i16::MIN as int, i16::MAX as int) == Some(v as int)
    }

    fn de_xml_attr(s: XmlStr<'a>) -> (r: Result<Self, XmlError>) {
        match parse_signed(s.raw(), i16::MIN as i64, i16::MAX as i64) {
            Some(v) => Ok(v as i16),
            None => Err(XmlError::InvalidValue),
        }
    }
}

impl<'a> DeXmlAttr<'a> for i32 {
    open spec fn attr_error(raw: Seq<char>) -> Option<XmlError> {
        number_error(raw, true, i32::MIN as int, i32::MAX as int)
    }

    /// A number is read from the raw text: a sign, if any, and digits.
    open spec fn attr_value(raw: Seq<char>, v: Self) -> bool {
        parse_within(raw, true, i32::MIN as int, i32::MAX as int) == Some(v as int)
    }

    fn de_xml_attr(s: XmlStr<'a>) -> (r: Result<Self, XmlError>) {
        match parse_signed(s.raw(), i32::MIN as i64, i32::MAX as i64) {
            Some(v) => Ok(v as i32),
            None => Err(XmlError::InvalidValue),
        }
    }
}

impl<'a> DeXmlAttr<'a> for i64 {
    open spec fn attr_error(raw: Seq<char>) -> Option<XmlError> {
        number_error(raw, true, i64::MIN as int, i64::MAX as int)
    }

    /// A number is read from the raw text: a sign, if any, and digits.
    open spec fn attr_value(raw: Seq<char>, v: Self) -> bool {
        parse_within(raw, true, i64::MIN as int, i64::MAX as int) == Some(v as int)
    }

    fn de_xml_attr(s: XmlStr<'a>) -> (r: Result<Self, XmlError>) {
        match parse_signed(s.raw(), i64::MIN as i64, i64::MAX as i64) {
            Some(v) => Ok(v as i64),
            None => Err(XmlError::InvalidValue),
        }
    }
}

impl<'a> DeXmlAttr<'a> for bool {
    open spec fn attr_error(raw: Seq<char>) -> Option<XmlError> {
        if parse_bool(raw) is Some {
            None
        } else {
            Some(XmlError::InvalidValue)
        }
    }

    /// A truth value is read from the raw text `true` or `false`.
    open spec fn attr_value(raw: Seq<char>, v: Self) -> bool {
        parse_bool(raw) == Some(v)
    }

    fn de_xml_attr(s: XmlStr<'a>) -> (r: Result<Self, XmlError>) {
        match parse_truth(s.raw()) {
            Some(v) => Ok(v),
            None => Err(XmlError::InvalidValue),
        }
    }
}

impl<'a> DeXmlAttr<'a> for XmlStr<'a> {
    open spec fn attr_error(raw: Seq<char>) -> Option<XmlError> {
        None
    }

    /// Raw text is read as it stands.
    open spec fn attr_value(raw: Seq<char>, v: Self) -> bool {
        v@ == raw
    }

    fn de_xml_attr(s: XmlStr<'a>) -> (r: Result<Self, XmlError>) {
        Ok(s)
    }
}

impl<'a> DeXmlAttr<'a> for Cow<'a, str> {
    open spec fn attr_error(raw: Seq<char>) -> Option<XmlError> {
        None
    }

    /// A string is read decoded; it borrows from the source exactly if the
    /// raw text holds no entity reference.
    open spec fn attr_value(raw: Seq<char>, v: Self) -> bool {
        v@ == unescape(raw) && (v is Borrowed <==> !has_entity(raw))
    }

    fn de_xml_attr(s: XmlStr<'a>) -> (r: Result<Self, XmlError>) {
        Ok(s.parsed())
    }
}

impl<'a> DeXmlAttr<'a> for String {
    open spec fn attr_error(raw: Seq<char>) -> Option<XmlError> {
        None
    }

    /// A string is read decoded.
    open spec fn attr_value(raw: Seq<char>, v: Self) -> bool {
        v@ == unescape(raw)
    }

    fn de_xml_attr(s: XmlStr<'a>) -> (r: Result<Self, XmlError>) {
        Ok(s.owned())
    }
}

/// A sequence that is read item by item: from an accumulator that starts
/// empty, takes one item for each element read, and is turned into the
/// sequence at the end.
pub trait DeXmlSeq<'a>: Sized + 'a {
    /// What gathers the items.
    type Intermediate;

    /// The number of items gathered. A type that does not say leaves it
    /// open, and so for the other spec functions here.
    open spec fn gathered(this: &Self::Intermediate) -> nat {
        arbitrary()
    }

    /// Where reading one more item ends, into an accumulator that holds `n`
    /// items, from behind the name of the item's opening tag; or why no
    /// item is taken.
    open spec fn push_end(n: nat, src: Seq<u8>, c: Cursor) -> Result<Cursor, XmlError> {
        arbitrary()
    }

    /// Why `n` items are not a whole sequence; `None` if they are one.
    open spec fn finish_error(n: nat) -> Option<XmlError> {
        arbitrary()
    }

    /// An accumulator without items.
    fn new_seq() -> (r: Self::Intermediate)
        ensures
            Self::gathered(&r) == 0,
    ;

    /// Reads one item and adds it behind those gathered. On failure the
    /// accumulator holds what it held.
    fn push_item(this: &mut Self::Intermediate, parser: &mut XmlParser<'a>) -> (r: Result<
        (),
        XmlError,
    >)
        ensures
            final(parser).moved_on_from(old(parser)),
            match Self::push_end(Self::gathered(old(this)), old(parser).source(), old(parser).state()) {
                Ok(c) => r is Ok && final(parser).state() == c && Self::gathered(final(this))
                    == Self::gathered(old(this)) + 1,
                Err(e) => r == Err::<(), XmlError>(e) && Self::gathered(final(this))
                    == Self::gathered(old(this)),
            },
    ;

    /// Turns what was gathered into the sequence.
    fn finish(this: Self::Intermediate) -> (r: Result<Self, XmlError>)
        ensures
            match Self::finish_error(Self::gathered(&this)) {
                None => r is Ok,
                Some(e) => r matches Err(x) && x == e,
            },
    ;
}

impl<'a, T: DeXml<'a>> DeXmlSeq<'a> for Vec<T> {
    type Intermediate = Self;

    open spec fn gathered(this: &Self) -> nat {
        this@.len()
    }

    /// A growable sequence always has room: an item is taken wherever one
    /// can be read.
    open spec fn push_end(n: nat, src: Seq<u8>, c: Cursor) -> Result<Cursor, XmlError> {
        T::de_end(src, c)
    }

    /// Any number of items is a whole sequence.
    open spec fn finish_error(n: nat) -> Option<XmlError> {
        None
    }

    fn new_seq() -> (r: Self) {
        Vec::new()
    }

    fn push_item(this: &mut Self, parser: &mut XmlParser<'a>) -> (r: Result<(), XmlError>)
        ensures
            r is Ok ==> final(this)@.drop_last() == old(this)@ && T::de_value(
                old(parser).source(),
                old(parser).state(),
                final(this)@.last(),
            ),
            r is Err ==> final(this)@ == old(this)@,
    {
        let item = T::de_xml(parser)?;
        this.push(item);
        proof {
            assert(this@.drop_last() =~= old(this)@);
        }
        Ok(())
    }

    fn finish(this: Self) -> (r: Result<Self, XmlError>)
        ensures
            r matches Ok(v) && v@ == this@,
    {
        Ok(this)
    }
}

impl<'a, T: DeXml<'a>, const N: usize> DeXmlSeq<'a> for [T; N] {
    type Intermediate = Vec<T>;

    open spec fn gathered(this: &Vec<T>) -> nat {
        this@.len()
    }

    /// A sequence of fixed size has room for `N` items. Whether there is
    /// room is decided before anything is read.
    open spec fn push_end(n: nat, src: Seq<u8>, c: Cursor) -> Result<Cursor, XmlError> {
        if n >= N {
            Err(XmlError::SeqOverflow)
        } else {
            T::de_end(src, c)
        }
    }

    /// Exactly `N` items are a whole sequence.
    open spec fn finish_error(n: nat) -> Option<XmlError> {
        if n == N {
            None
        } else {
            Some(XmlError::SeqUnderflow)
        }
    }

    fn new_seq() -> (r: Vec<T>) {
        Vec::new()
    }

    fn push_item(this: &mut Vec<T>, parser: &mut XmlParser<'a>) -> (r: Result<(), XmlError>)
        ensures
            r is Ok ==> final(this)@.drop_last() == old(this)@ && T::de_value(
                old(parser).source(),
                old(parser).state(),
                final(this)@.last(),
            ),
            r is Err ==> final(this)@ == old(this)@,
            old(this)@.len() >= N ==> final(parser).state() == old(parser).state(),
    {
        if this.len() >= N {
            // Nothing is read: the tokenizer stays where it stands.
            let _ = parser.offset();
            return Err(XmlError::SeqOverflow);
        }
        let item = T::de_xml(parser)?;
        this.push(item);
        proof {
            assert(this@.drop_last() =~= old(this)@);
        }
        Ok(())
    }

    fn finish(this: Vec<T>) -> (r: Result<Self, XmlError>)
        ensures
            r matches Ok(v) ==> v@ == this@,
    {
        match array_from_vec::<T, N>(this) {
            Ok(items) => Ok(items),
            Err(_) => Err(XmlError::SeqUnderflow),
        }
    }
}

/// `<[T; N]>::try_from` turns a vector of exactly `N` items into an array
/// of the same items in the same order, and hands any other vector back.
#[verifier::external_body]
fn array_from_vec<T, const N: usize>(v: Vec<T>) -> (r: Result<[T; N], Vec<T>>)
    ensures
        match r {
            Ok(a) => v@.len() == N && a@ == v@,
            Err(_) => v@.len() != N,
        },
{
    <[T; N]>::try_from(v)
}

} // verus!
