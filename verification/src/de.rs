//! Reading: the tokenizer and the entity-aware string view.

use std::borrow::Cow;
use vstd::prelude::*;
use vstd::string::*;
use vstd::utf8::*;
use crate::escape::{entity, has_entity, unescape};
use crate::grammar;
use crate::grammar::{expect_byte, find_byte, name_end, skip_spaces, Cursor, TokenView};
use crate::text::{
    lemma_after_ascii_prefix, lemma_ascii_is_boundary, lemma_boundary_after_ascii, lemma_str_bytes,
    slice_of, split_first, starts_with, str_eq, text_of, trimmed,
};

verus! {

/// Why a document, or a value in it, was refused.
#[derive(Debug, Clone, Copy, PartialEq, Eq, Structural)]
pub enum XmlError {
    /// A byte other than the one the grammar requires at this place.
    UnexpectedChar,
    /// A tag or attribute name with no character in it.
    InvalidIdentifier,
    /// A tag whose name is not the expected one.
    NameMismatch,
    /// A well-formed token of the wrong kind.
    UnexpectedToken,
    /// The input ended inside a token, or where a token was required.
    UnexpectedEof,
    /// Something other than whitespace after the root element.
    TrailingChars,
    /// A child element or attribute that the record does not have.
    InvalidField,
    /// A name that is none of an enumeration's variants.
    InvalidVariant,
    /// Text that is not a value of the requested type.
    InvalidValue,
    /// A field given twice.
    DuplicateField,
    /// A required field that the input does not hold.
    MissingField,
    /// More items than a fixed-capacity sequence can take.
    SeqOverflow,
    /// Fewer items than a fixed-size sequence needs.
    SeqUnderflow,
}

/// A piece of the source that may hold entity references. It borrows from
/// the source and is decoded only on request.
#[derive(Debug)]
pub struct XmlStr<'a> {
    pub(crate) s: &'a str,
}

/// A token, borrowing its names and values from the source.
#[derive(Debug)]
pub enum XmlToken<'a> {
    /// `<name`
    TagOpenStart(&'a str),
    /// `>`, or the `/>` of a self-closed tag
    TagOpenEnd,
    /// `</name>`, or, with an empty name, the close that `/>` stands for
    TagClose(&'a str),
    /// `key="value"`
    Attribute(&'a str, XmlStr<'a>),
    /// Character data up to the next `<`
    Text(XmlStr<'a>),
}

impl<'a> View for XmlStr<'a> {
    type V = Seq<char>;

    /// The raw text, as it stands in the source.
    closed spec fn view(&self) -> Seq<char> {
        self.s@
    }
}

impl<'a> View for XmlToken<'a> {
    type V = TokenView;

    open spec fn view(&self) -> TokenView {
        match *self {
            XmlToken::TagOpenStart(name) => TokenView::TagOpenStart(name@),
            XmlToken::TagOpenEnd => TokenView::TagOpenEnd,
            XmlToken::TagClose(name) => TokenView::TagClose(name@),
            XmlToken::Attribute(key, value) => TokenView::Attribute(key@, value@),
            XmlToken::Text(value) => TokenView::Text(value@),
        }
    }
}

/// The view of a token that may be absent.
pub open spec fn token_view(t: Option<XmlToken>) -> Option<TokenView> {
    match t {
        Some(t) => Some(t@),
        None => None,
    }
}

impl<'a> XmlStr<'a> {
    /// A view of `s`, taken as raw text.
    pub fn new(s: &'a str) -> (r: Self)
        ensures
            r@ == s@,
    {
        Self { s }
    }

    /// The decoded text: the raw text with each entity reference replaced
    /// by the character it stands for.
    pub open spec fn decoded(&self) -> Seq<char> {
        unescape(self@)
    }

    /// The raw text, verbatim.
    pub fn raw(&self) -> (r: &'a str)
        ensures
            r@ == self@,
    {
        self.s
    }

    /// The decoded characters, one at a time.
    pub fn iter(&self) -> (r: XmlStrIter<'a>)
        ensures
            r@ == self.decoded(),
    {
        XmlStrIter::new(self.s)
    }

    /// Whether the raw text holds an entity reference.
    pub fn has_reference(&self) -> (r: bool)
        ensures
            r == has_entity(self@),
    {
        let mut rest = self.s;
        loop
            invariant
                has_entity(rest@) == has_entity(self@),
            decreases rest@.len(),
        {
            match split_first(rest) {
                None => {
                    return false;
                },
                Some((c, tail)) => {
                    if c == '&' && starts_with_xml_escape_code(tail).is_some() {
                        proof {
                            assert(tail@ == rest@.skip(0int + 1));
                        }
                        return true;
                    }
                    proof {
                        lemma_has_entity_step(rest@);
                    }
                    rest = tail;
                },
            }
        }
    }

    /// The decoded text, borrowed from the source where the raw text holds
    /// no entity reference and decoding therefore changes nothing, and
    /// owned otherwise.
    pub fn parsed(&self) -> (r: Cow<'a, str>)
        ensures
            r@ == self.decoded(),
            r is Borrowed <==> !has_entity(self@),
    {
        if self.has_reference() {
            Cow::Owned(self.owned())
        } else {
            proof {
                crate::escape::lemma_unescape_plain(self@);
            }
            Cow::Borrowed(self.s)
        }
    }

    /// The decoded text, as a string of its own.
    pub fn owned(&self) -> (r: String)
        ensures
            r@ == self.decoded(),
    {
        let mut out = String::new();
        let mut iter = self.iter();
        loop
            invariant
                out@ + iter@ == self.decoded(),
            decreases iter@.len(),
        {
            match iter.next() {
                Some(c) => {
                    proof {
                        assert(out@.push(c) + iter@ =~= out@ + (seq![c] + iter@));
                    }
                    out.push(c);
                },
                None => {
                    proof {
                        assert(out@ + iter@ =~= out@);
                    }
                    return out;
                },
            }
        }
    }

    /// The decoded text, if its UTF-8 form is at most `capacity` bytes long.
    pub fn bounded(&self, capacity: usize) -> (r: Result<String, ()>)
        ensures
            match r {
                Ok(text) => text@ == self.decoded() && encode_utf8(text@).len() <= capacity,
                Err(_) => encode_utf8(self.decoded()).len() > capacity,
            },
    {
        let decoded = self.owned();
        if decoded.as_str().as_bytes().len() <= capacity {
            Ok(decoded)
        } else {
            Err(())
        }
    }

    /// The decoded text in a string of capacity `N` bytes; an error if its
    /// UTF-8 form is longer than that.
    pub fn heapless<const N: usize>(&self) -> (r: Result<heapless::String<N>, ()>)
        ensures
            r is Ok <==> encode_utf8(self.decoded()).len() <= N,
    {
        match self.bounded(N) {
            Ok(decoded) => bounded_from_str::<N>(decoded.as_str()),
            Err(()) => Err(()),
        }
    }

    /// Whether the decoded text is `other`.
    pub fn eq_str(&self, other: &str) -> (r: bool)
        ensures
            r == (self.decoded() == other@),
    {
        let mut iter = self.iter();
        let mut rest = other;
        let ghost mut done: Seq<char> = Seq::empty();
        loop
            invariant
                done + iter@ == self.decoded(),
                done + rest@ == other@,
            decreases iter@.len(),
        {
            match iter.next() {
                Some(c) => match split_first(rest) {
                    Some((d, tail)) => {
                        if c != d {
                            proof {
                                assert(self.decoded()[done.len() as int] == c);
                                assert(other@[done.len() as int] == d);
                            }
                            return false;
                        }
                        proof {
                            assert(done.push(c) + iter@ =~= done + (seq![c] + iter@));
                            assert(done.push(c) + tail@ =~= done + rest@);
                            done = done.push(c);
                        }
                        rest = tail;
                    },
                    None => {
                        proof {
                            assert(self.decoded().len() > other@.len());
                        }
                        return false;
                    },
                },
                None => {
                    let same = rest.is_empty();
                    proof {
                        assert(done + iter@ =~= done);
                        if same {
                            assert(done + rest@ =~= done);
                        } else {
                            assert(other@.len() > self.decoded().len());
                        }
                    }
                    return same;
                },
            }
        }
    }
}

/// Two views are equal if their raw texts are.
impl<'a> PartialEq for XmlStr<'a> {
    fn eq(&self, other: &Self) -> (r: bool) {
        str_eq(self.s, other.s)
    }
}

impl<'a> vstd::std_specs::cmp::PartialEqSpecImpl for XmlStr<'a> {
    open spec fn obeys_eq_spec() -> bool {
        true
    }

    open spec fn eq_spec(&self, other: &Self) -> bool {
        self@ == other@
    }
}

impl<'a> Eq for XmlStr<'a> {

}

/// A view equals plain text if its decoded text is that text.
impl<'a> PartialEq<str> for XmlStr<'a> {
    fn eq(&self, other: &str) -> (r: bool) {
        self.eq_str(other)
    }
}

impl<'a> vstd::std_specs::cmp::PartialEqSpecImpl<str> for XmlStr<'a> {
    open spec fn obeys_eq_spec() -> bool {
        true
    }

    open spec fn eq_spec(&self, other: &str) -> bool {
        self.decoded() == other@
    }
}

/// A view equals plain text if its decoded text is that text.
impl<'a, 'b> PartialEq<&'b str> for XmlStr<'a> {
    fn eq(&self, other: &&'b str) -> (r: bool) {
        self.eq_str(*other)
    }
}

impl<'a, 'b> vstd::std_specs::cmp::PartialEqSpecImpl<&'b str> for XmlStr<'a> {
    open spec fn obeys_eq_spec() -> bool {
        true
    }

    open spec fn eq_spec(&self, other: &&'b str) -> bool {
        self.decoded() == other@
    }
}

/// The decoded characters of a piece of raw text that are still to come.
pub struct XmlStrIter<'a> {
    rest: &'a str,
}

impl<'a> View for XmlStrIter<'a> {
    type V = Seq<char>;

    /// The characters that `next` will still return, in order.
    closed spec fn view(&self) -> Seq<char> {
        unescape(self.rest@)
    }
}

impl<'a> XmlStrIter<'a> {
    /// The decoded characters of the raw text `s`.
    pub fn new(s: &'a str) -> (r: Self)
        ensures
            r@ == unescape(s@),
    {
        Self { rest: s }
    }

    /// The next decoded character: at an `&` that starts an entity reference,
    /// the character that the reference stands for; otherwise the next raw
    /// character.
    pub fn next(&mut self) -> (r: Option<char>)
        ensures
            match r {
                Some(c) => old(self)@ == seq![c] + final(self)@,
                None => old(self)@.len() == 0 && final(self)@ == old(self)@,
            },
    {
        match split_first(self.rest) {
            None => None,
            Some((c, tail)) => {
                if c == '&' {
                    match starts_with_xml_escape_code(tail) {
                        Some((e, n)) => {
                            proof {
                                lemma_str_bytes(tail);
                                assert(self.rest@.skip(1 + n as int) =~= tail@.skip(n as int));
                            }
                            let len = tail.as_bytes().len();
                            self.rest = slice_of(tail, n, len);
                            Some(e)
                        },
                        None => {
                            self.rest = tail;
                            Some('&')
                        },
                    }
                } else {
                    self.rest = tail;
                    Some(c)
                }
            },
        }
    }
}

/// Without a reference at its first character, a text holds a reference
/// exactly if the rest of it does.
proof fn lemma_has_entity_step(s: Seq<char>)
    requires
        s.len() > 0,
        !(s[0] == '&' && entity(s.skip(1)) is Some),
    ensures
        has_entity(s) == has_entity(s.skip(1)),
{
    let t = s.skip(1);
    if has_entity(s) {
        let i = choose|i: int|
            0 <= i < s.len() && s[i] == '&' && (#[trigger] entity(s.skip(i + 1))) is Some;
        assert(i > 0);
        assert(s.skip(i + 1) =~= t.skip((i - 1) + 1));
        assert(t[i - 1] == '&');
    }
    if has_entity(t) {
        let i = choose|i: int|
            0 <= i < t.len() && t[i] == '&' && (#[trigger] entity(t.skip(i + 1))) is Some;
        assert(t.skip(i + 1) =~= s.skip((i + 1) + 1));
        assert(s[i + 1] == '&');
    }
}

/// `heapless::String::try_from` copies the text into a new string of
/// capacity `N` bytes, and fails exactly if the text is longer than that.
#[verifier::external_body]
fn bounded_from_str<const N: usize>(s: &str) -> (r: Result<heapless::String<N>, ()>)
    ensures
        r is Ok <==> s.spec_bytes().len() <= N,
{
    heapless::String::try_from(s)
}

/// The entity reference that `s` starts with, behind an `&` already read:
/// the character it stands for and its length, in bytes and in characters
/// alike.
pub fn starts_with_xml_escape_code(s: &str) -> (r: Option<(char, usize)>)
    ensures
        match entity(s@) {
            Some((c, n)) => r == Some((c, n as usize)) && n <= s.spec_bytes().len()
                && is_char_boundary(s.spec_bytes(), n) && text_of(
                s.spec_bytes(),
                n,
                s.spec_bytes().len() as int,
            ) == s@.skip(n),
            None => r is None,
        },
{
    proof {
        reveal_strlit("lt;");
        reveal_strlit("gt;");
        reveal_strlit("amp;");
        reveal_strlit("quot;");
        reveal_strlit("apos;");
        assert("lt;"@ =~= seq!['l', 't', ';']);
        assert("gt;"@ =~= seq!['g', 't', ';']);
        assert("amp;"@ =~= seq!['a', 'm', 'p', ';']);
        assert("quot;"@ =~= seq!['q', 'u', 'o', 't', ';']);
        assert("apos;"@ =~= seq!['a', 'p', 'o', 's', ';']);
    }
    if starts_with(s, "lt;") {
        proof {
            lemma_after_ascii_prefix(s, "lt;"@);
        }
        Some(('<', 3))
    } else if starts_with(s, "gt;") {
        proof {
            lemma_after_ascii_prefix(s, "gt;"@);
        }
        Some(('>', 3))
    } else if starts_with(s, "amp;") {
        proof {
            lemma_after_ascii_prefix(s, "amp;"@);
        }
        Some(('&', 4))
    } else if starts_with(s, "quot;") {
        proof {
            lemma_after_ascii_prefix(s, "quot;"@);
        }
        Some(('"', 5))
    } else if starts_with(s, "apos;") {
        proof {
            lemma_after_ascii_prefix(s, "apos;"@);
        }
        Some(('\'', 5))
    } else {
        None
    }
}

#[verifier::external_type_specification]
#[verifier::external_body]
pub struct ExBoundedString<const N: usize>(heapless::String<N>);

/// A tokenizer over one source. It keeps a byte cursor into the source, which
/// always stands between two characters, and the two flags of the grammar.
pub struct XmlParser<'a> {
    pub(crate) s: &'a str,
    pub(crate) n: usize,
    pub(crate) in_tag: bool,
    pub(crate) selfclose: bool,
}

impl<'a> XmlParser<'a> {
    #[verifier::type_invariant]
    spec fn on_boundary(self) -> bool {
        &&& self.n <= self.s.spec_bytes().len()
        &&& is_char_boundary(self.s.spec_bytes(), self.n as int)
    }

    /// The bytes of the document, behind any declaration.
    pub closed spec fn source(&self) -> Seq<u8> {
        self.s.spec_bytes()
    }

    /// Where the tokenizer stands.
    pub closed spec fn state(&self) -> Cursor {
        Cursor { pos: self.n as int, in_tag: self.in_tag, pending_close: self.selfclose }
    }

    /// Whether this is the tokenizer `before`, moved on: it reads the same
    /// source, and stands between two characters of it, not before the place
    /// where `before` stands and not past the end. The cursor only advances,
    /// whether an operation succeeds or fails.
    pub open spec fn moved_on_from(&self, before: &Self) -> bool {
        &&& self.source() == before.source()
        &&& before.state().pos <= self.state().pos <= self.source().len()
        &&& is_char_boundary(self.source(), self.state().pos)
    }

    /// The byte offset in the source at which the tokenizer stands: between
    /// two characters, and not past the end.
    pub fn offset(&self) -> (r: usize)
        ensures
            r == self.state().pos,
            self.moved_on_from(self),
    {
        proof {
            use_type_invariant(self);
        }
        self.n
    }

    /// A tokenizer for the document in `s`: `s` without the whitespace at its
    /// two ends and without a leading `<?xml ... ?>` declaration.
    pub fn new(s: &'a str) -> (r: Result<Self, XmlError>)
        ensures
            ({
                let doc = encode_utf8(trimmed(s@));
                match grammar::document_start(doc) {
                    Ok(k) => r matches Ok(p) && p.source() == doc.subrange(k, doc.len() as int)
                        && p.state() == grammar::start(),
                    Err(e) => r matches Err(x) && x == e,
                }
            }),
    {
        let s = skip_xml_header(s.trim())?;
        proof {
            lemma_str_bytes(s);
        }
        Ok(Self { s, n: 0, in_tag: false, selfclose: false })
    }

    /// The next token, or `None` where only whitespace is left.
    pub fn next_token(&mut self) -> (r: Result<Option<XmlToken<'a>>, XmlError>)
        ensures
            final(self).moved_on_from(old(self)),
            match grammar::next_token(old(self).source(), old(self).state()) {
                Ok((t, c)) => r matches Ok(x) && token_view(x) == t && final(self).state() == c,
                Err(e) => r matches Err(x) && x == e,
            },
    {
        proof {
            use_type_invariant(&*self);
        }
        if self.selfclose {
            self.selfclose = false;
            proof {
                reveal_strlit("");
                assert(""@ =~= Seq::<char>::empty());
            }
            return Ok(Some(XmlToken::TagClose("")));
        }
        self.consume_whitespace();
        proof {
            use_type_invariant(&*self);
        }
        let start = self.n;
        match self.consume_ascii() {
            None => Ok(None),
            Some(b) => {
                if b == 0x3c {
                    let closing = self.opt_consume_ascii(0x2f).is_some();
                    let identifier = self.consume_identifier()?;
                    if closing {
                        self.expect_ascii(0x3e)?;
                        Ok(Some(XmlToken::TagClose(identifier)))
                    } else {
                        proof {
                            use_type_invariant(&*self);
                        }
                        self.in_tag = true;
                        Ok(Some(XmlToken::TagOpenStart(identifier)))
                    }
                } else if b == 0x3e {
                    proof {
                        use_type_invariant(&*self);
                    }
                    self.in_tag = false;
                    Ok(Some(XmlToken::TagOpenEnd))
                } else if b == 0x2f && self.in_tag {
                    self.expect_ascii(0x3e)?;
                    proof {
                        use_type_invariant(&*self);
                    }
                    self.in_tag = false;
                    proof {
                        use_type_invariant(&*self);
                    }
                    self.selfclose = true;
                    Ok(Some(XmlToken::TagOpenEnd))
                } else if self.in_tag {
                    self.n = start;
                    let key = self.consume_identifier()?;
                    self.expect_ascii(0x3d)?;
                    self.expect_ascii(0x22)?;
                    proof {
                        use_type_invariant(&*self);
                        grammar::lemma_find_byte(self.s.spec_bytes(), self.n as int, 0x22);
                    }
                    let value = self.consume_until(0x22)?;
                    self.expect_ascii(0x22)?;
                    Ok(Some(XmlToken::Attribute(key, XmlStr::new(value))))
                } else {
                    self.n = start;
                    let value = self.consume_until(0x3c)?;
                    Ok(Some(XmlToken::Text(XmlStr::new(value))))
                }
            },
        }
    }

    /// The next token, where the end of input is an error.
    fn required(&mut self) -> (r: Result<XmlToken<'a>, XmlError>)
        ensures
            final(self).moved_on_from(old(self)),
            match grammar::required_token(old(self).source(), old(self).state()) {
                Ok((t, c)) => r matches Ok(x) && x@ == t && final(self).state() == c,
                Err(e) => r matches Err(x) && x == e,
            },
    {
        match self.next_token()? {
            Some(token) => Ok(token),
            None => Err(XmlError::UnexpectedEof),
        }
    }

    /// Requires the start of an opening tag named `expect`.
    pub fn tag_open_start(&mut self, expect: &str) -> (r: Result<(), XmlError>)
        ensures
            final(self).moved_on_from(old(self)),
            match grammar::open_start(old(self).source(), old(self).state(), expect@) {
                Ok(c) => r is Ok && final(self).state() == c,
                Err(e) => r == Err::<(), XmlError>(e),
            },
    {
        match self.required()? {
            XmlToken::TagOpenStart(tag) => {
                if str_eq(tag, expect) {
                    Ok(())
                } else {
                    Err(XmlError::NameMismatch)
                }
            },
            _ => Err(XmlError::UnexpectedToken),
        }
    }

    /// Requires the end of an opening tag.
    pub fn tag_open_end(&mut self) -> (r: Result<(), XmlError>)
        ensures
            final(self).moved_on_from(old(self)),
            match grammar::open_end(old(self).source(), old(self).state()) {
                Ok(c) => r is Ok && final(self).state() == c,
                Err(e) => r == Err::<(), XmlError>(e),
            },
    {
        match self.required()? {
            XmlToken::TagOpenEnd => Ok(()),
            _ => Err(XmlError::UnexpectedToken),
        }
    }

    /// Requires a closing tag that matches `expect`: one of that name, or one
    /// without a name, or any one if `expect` is empty.
    pub fn tag_close(&mut self, expect: &str) -> (r: Result<(), XmlError>)
        ensures
            final(self).moved_on_from(old(self)),
            match grammar::close(old(self).source(), old(self).state(), expect@) {
                Ok(c) => r is Ok && final(self).state() == c,
                Err(e) => r == Err::<(), XmlError>(e),
            },
    {
        let token = self.required()?;
        close_of(&token, expect)
    }

    /// Requires text, and returns it as written.
    pub fn text(&mut self) -> (r: Result<XmlStr<'a>, XmlError>)
        ensures
            final(self).moved_on_from(old(self)),
            match grammar::text(old(self).source(), old(self).state()) {
                Ok((raw, c)) => r matches Ok(x) && x@ == raw && final(self).state() == c,
                Err(e) => r matches Err(x) && x == e,
            },
    {
        match self.required()? {
            XmlToken::Text(s) => Ok(s),
            _ => Err(XmlError::UnexpectedToken),
        }
    }

    /// Requires an attribute, and returns its key and its value as written.
    pub fn attr(&mut self) -> (r: Result<(&'a str, XmlStr<'a>), XmlError>)
        ensures
            final(self).moved_on_from(old(self)),
            match grammar::attribute(old(self).source(), old(self).state()) {
                Ok((kv, c)) => r matches Ok(x) && x.0@ == kv.0 && x.1@ == kv.1 && final(self).state() == c,
                Err(e) => r matches Err(x) && x == e,
            },
    {
        match self.required()? {
            XmlToken::Attribute(key, value) => Ok((key, value)),
            _ => Err(XmlError::UnexpectedToken),
        }
    }

    /// Inside an opening tag: the next attribute, or `Err(())` at the end of the tag.
    pub fn attr_or_tag_open_end(&mut self) -> (r: Result<
        Result<(&'a str, XmlStr<'a>), ()>,
        XmlError,
    >)
        ensures
            final(self).moved_on_from(old(self)),
            match grammar::attribute_or_open_end(old(self).source(), old(self).state()) {
                Ok((Some(kv), c)) => r matches Ok(Ok(x)) && x.0@ == kv.0 && x.1@ == kv.1 && final(self).state() == c,
                Ok((None, c)) => r matches Ok(Err(_)) && final(self).state() == c,
                Err(e) => r matches Err(x) && x == e,
            },
    {
        match self.required()? {
            XmlToken::Attribute(key, value) => Ok(Ok((key, value))),
            XmlToken::TagOpenEnd => Ok(Err(())),
            _ => Err(XmlError::UnexpectedToken),
        }
    }

    /// Among an element's children: the name of the next child, or `Err(())`
    /// at the element's close, which must match `expect_close`.
    pub fn tag_open_or_close(&mut self, expect_close: &str) -> (r: Result<
        Result<&'a str, ()>,
        XmlError,
    >)
        ensures
            final(self).moved_on_from(old(self)),
            match grammar::child_or_close(old(self).source(), old(self).state(), expect_close@) {
                Ok((Some(name), c)) => r matches Ok(Ok(x)) && x@ == name && final(self).state()
                    == c,
                Ok((None, c)) => r matches Ok(Err(_)) && final(self).state() == c,
                Err(e) => r matches Err(x) && x == e,
            },
    {
        match self.required()? {
            XmlToken::TagOpenStart(tag) => Ok(Ok(tag)),
            token => match close_of(&token, expect_close) {
                Ok(()) => Ok(Err(())),
                Err(e) => Err(e),
            },
        }
    }

    /// The body of a leaf: one text token or none, then the element's close,
    /// which must match `expect_close`. Returns the text as written, empty
    /// if there was none.
    pub fn text_and_tag_close(&mut self, expect_close: &str) -> (r: Result<XmlStr<'a>, XmlError>)
        ensures
            final(self).moved_on_from(old(self)),
            match grammar::text_then_close(old(self).source(), old(self).state(), expect_close@) {
                Ok((raw, c)) => r matches Ok(x) && x@ == raw && final(self).state() == c,
                Err(e) => r matches Err(x) && x == e,
            },
    {
        match self.required()? {
            XmlToken::Text(s) => {
                self.tag_close(expect_close)?;
                Ok(s)
            },
            token => {
                close_of(&token, expect_close)?;
                proof {
                    reveal_strlit("");
                    assert(""@ =~= Seq::<char>::empty());
                }
                Ok(XmlStr::new(""))
            },
        }
    }

    /// Confirms that the document ends here: that no close is pending and
    /// only whitespace is left.
    pub fn check_end(&mut self) -> (r: Result<(), XmlError>)
        ensures
            final(self).moved_on_from(old(self)),
            r is Ok <==> grammar::at_end(old(self).source(), old(self).state()),
            r matches Err(e) ==> e == XmlError::TrailingChars,
    {
        match self.next_token() {
            Ok(None) => Ok(()),
            _ => Err(XmlError::TrailingChars),
        }
    }

    /// The next byte, if any, without taking it.
    fn peek(&self) -> (r: Option<u8>)
        ensures
            r == self.peek_spec(),
            self.s.spec_bytes().len() <= usize::MAX,
    {
        let bytes = self.s.as_bytes();
        if self.n < bytes.len() {
            Some(bytes[self.n])
        } else {
            None
        }
    }

    /// Takes the next byte if it is ASCII, and returns the next byte in any case.
    fn consume_ascii(&mut self) -> (r: Option<u8>)
        ensures
            final(self).s == old(self).s,
            final(self).in_tag == old(self).in_tag,
            final(self).selfclose == old(self).selfclose,
            old(self).n <= final(self).n <= old(self).s.spec_bytes().len(),
            is_char_boundary(old(self).s.spec_bytes(), final(self).n as int),
            r == old(self).peek_spec(),
            final(self).n == (if r is Some && r->0 < 0x80 {
                old(self).n + 1
            } else {
                old(self).n as int
            }),
    {
        proof {
            use_type_invariant(&*self);
            lemma_str_bytes(self.s);
        }
        match self.peek() {
            Some(b) => {
                if b < 0x80 {
                    proof {
                        lemma_boundary_after_ascii(self.s.spec_bytes(), self.n as int);
                    }
                    self.n += 1;
                }
                Some(b)
            },
            None => None,
        }
    }

    spec fn peek_spec(&self) -> Option<u8> {
        if self.n < self.s.spec_bytes().len() {
            Some(self.s.spec_bytes()[self.n as int])
        } else {
            None
        }
    }

    /// Takes the next byte if it is `expect`.
    fn opt_consume_ascii(&mut self, expect: u8) -> (r: Option<()>)
        requires
            expect < 0x80,
        ensures
            final(self).s == old(self).s,
            final(self).in_tag == old(self).in_tag,
            final(self).selfclose == old(self).selfclose,
            old(self).n <= final(self).n <= old(self).s.spec_bytes().len(),
            is_char_boundary(old(self).s.spec_bytes(), final(self).n as int),
            r is Some <==> old(self).peek_spec() == Some(expect),
            final(self).n == (if r is Some {
                old(self).n + 1
            } else {
                old(self).n as int
            }),
    {
        proof {
            use_type_invariant(&*self);
            lemma_str_bytes(self.s);
        }
        match self.peek() {
            Some(b) => {
                if b == expect {
                    proof {
                        lemma_boundary_after_ascii(self.s.spec_bytes(), self.n as int);
                    }
                    self.n += 1;
                    Some(())
                } else {
                    None
                }
            },
            None => None,
        }
    }

    /// Requires the byte `expect` next, and takes it.
    fn expect_ascii(&mut self, expect: u8) -> (r: Result<(), XmlError>)
        requires
            expect < 0x80,
        ensures
            final(self).s == old(self).s,
            final(self).in_tag == old(self).in_tag,
            final(self).selfclose == old(self).selfclose,
            old(self).n <= final(self).n <= old(self).s.spec_bytes().len(),
            is_char_boundary(old(self).s.spec_bytes(), final(self).n as int),
            match expect_byte(old(self).s.spec_bytes(), old(self).n as int, expect) {
                Ok(after) => r is Ok && final(self).n == after,
                Err(e) => r == Err::<(), XmlError>(e) && final(self).n == old(self).n,
            },
    {
        proof {
            use_type_invariant(&*self);
            lemma_str_bytes(self.s);
        }
        match self.peek() {
            None => Err(XmlError::UnexpectedEof),
            Some(b) => {
                if b == expect {
                    proof {
                        lemma_boundary_after_ascii(self.s.spec_bytes(), self.n as int);
                    }
                    self.n += 1;
                    Ok(())
                } else {
                    Err(XmlError::UnexpectedChar)
                }
            },
        }
    }

    /// Takes the name that starts at the cursor; it must not be empty.
    fn consume_identifier(&mut self) -> (r: Result<&'a str, XmlError>)
        ensures
            final(self).s == old(self).s,
            final(self).in_tag == old(self).in_tag,
            final(self).selfclose == old(self).selfclose,
            old(self).n <= final(self).n <= old(self).s.spec_bytes().len(),
            is_char_boundary(old(self).s.spec_bytes(), final(self).n as int),
            final(self).n == name_end(old(self).s.spec_bytes(), old(self).n as int),
            final(self).n == old(self).n ==> r == Err::<&str, XmlError>(XmlError::InvalidIdentifier),
            final(self).n != old(self).n ==> (r matches Ok(name) && name@ == text_of(
                old(self).s.spec_bytes(),
                old(self).n as int,
                final(self).n as int,
            )),
    {
        proof {
            use_type_invariant(&*self);
            lemma_str_bytes(self.s);
        }
        let bytes = self.s.as_bytes();
        let start = self.n;
        let mut i = start;
        while i < bytes.len()
            invariant
                bytes@ == self.s.spec_bytes(),
                valid_utf8(bytes@),
                start <= i <= bytes@.len(),
                is_char_boundary(bytes@, i as int),
                name_end(bytes@, i as int) == name_end(bytes@, start as int),
            ensures
                i == name_end(bytes@, start as int),
            decreases bytes@.len() - i,
        {
            let b = bytes[i];
            if (b >= 0x41 && b <= 0x5a) || (b >= 0x61 && b <= 0x7a) || (b >= 0x30 && b <= 0x39) || b
                == 0x5f || b == 0x2d || b == 0x3a {
                proof {
                    lemma_boundary_after_ascii(bytes@, i as int);
                }
                i += 1;
            } else {
                break;
            }
        }
        if i == start {
            return Err(XmlError::InvalidIdentifier);
        }
        let name = slice_of(self.s, start, i);
        self.n = i;
        Ok(name)
    }

    /// Takes the text up to the next byte `delim`, which must exist and is
    /// left in place.
    fn consume_until(&mut self, delim: u8) -> (r: Result<&'a str, XmlError>)
        requires
            delim < 0x80,
        ensures
            final(self).s == old(self).s,
            final(self).in_tag == old(self).in_tag,
            final(self).selfclose == old(self).selfclose,
            old(self).n <= final(self).n <= old(self).s.spec_bytes().len(),
            is_char_boundary(old(self).s.spec_bytes(), final(self).n as int),
            ({
                let src = old(self).s.spec_bytes();
                let end = find_byte(src, old(self).n as int, delim);
                if end >= src.len() {
                    r == Err::<&str, XmlError>(XmlError::UnexpectedEof) && final(self).n == old(self).n
                } else {
                    final(self).n == end && (r matches Ok(raw) && raw@ == text_of(
                        src,
                        old(self).n as int,
                        end,
                    ))
                }
            }),
    {
        proof {
            use_type_invariant(&*self);
            lemma_str_bytes(self.s);
        }
        let bytes = self.s.as_bytes();
        let start = self.n;
        let mut i = start;
        while i < bytes.len()
            invariant
                bytes@ == self.s.spec_bytes(),
                valid_utf8(bytes@),
                start <= i <= bytes@.len(),
                find_byte(bytes@, i as int, delim) == find_byte(bytes@, start as int, delim),
                delim < 0x80,
                self.n == start,
                *self == *old(self),
                is_char_boundary(bytes@, start as int),
            decreases bytes@.len() - i,
        {
            if bytes[i] == delim {
                proof {
                    lemma_ascii_is_boundary(bytes@, i as int);
                }
                let raw = slice_of(self.s, start, i);
                self.n = i;
                return Ok(raw);
            }
            i += 1;
        }
        Err(XmlError::UnexpectedEof)
    }

    /// Skips the whitespace at the cursor.
    fn consume_whitespace(&mut self)
        ensures
            final(self).s == old(self).s,
            final(self).in_tag == old(self).in_tag,
            final(self).selfclose == old(self).selfclose,
            old(self).n <= final(self).n <= old(self).s.spec_bytes().len(),
            is_char_boundary(old(self).s.spec_bytes(), final(self).n as int),
            final(self).n == skip_spaces(old(self).s.spec_bytes(), old(self).n as int),
    {
        proof {
            use_type_invariant(&*self);
            lemma_str_bytes(self.s);
        }
        let bytes = self.s.as_bytes();
        while self.n < bytes.len()
            invariant
                bytes@ == self.s.spec_bytes(),
                valid_utf8(bytes@),
                self.s == old(self).s,
                self.in_tag == old(self).in_tag,
                self.selfclose == old(self).selfclose,
                old(self).n <= self.n <= bytes@.len(),
                is_char_boundary(bytes@, self.n as int),
                skip_spaces(bytes@, self.n as int) == skip_spaces(bytes@, old(self).n as int),
            ensures
                self.n == skip_spaces(bytes@, old(self).n as int),
            decreases bytes@.len() - self.n,
        {
            let b = bytes[self.n];
            if b == 0x20 || b == 0x09 || b == 0x0a || b == 0x0c || b == 0x0d {
                proof {
                    lemma_boundary_after_ascii(bytes@, self.n as int);
                }
                self.n += 1;
            } else {
                break;
            }
        }
    }
}

/// What `token` is worth where the close of `expect` is required.
fn close_of(token: &XmlToken, expect: &str) -> (r: Result<(), XmlError>)
    ensures
        r == grammar::as_close(token@, expect@),
{
    match token {
        XmlToken::TagClose(tag) => {
            if str_eq(tag, expect) || tag.is_empty() || expect.is_empty() {
                Ok(())
            } else {
                Err(XmlError::NameMismatch)
            }
        },
        _ => Err(XmlError::UnexpectedToken),
    }
}

/// Strips a leading `<?xml ... ?>` declaration: returns what follows it, or
/// all of `s` if `s` does not start with `<?xml`. The declaration ends at its
/// first `?`, which must be followed by `>`.
pub fn skip_xml_header(s: &str) -> (r: Result<&str, XmlError>)
    ensures
        match grammar::document_start(s.spec_bytes()) {
            Ok(k) => r matches Ok(rest) && rest.spec_bytes() == s.spec_bytes().subrange(
                k,
                s.spec_bytes().len() as int,
            ),
            Err(e) => r matches Err(x) && x == e,
        },
{
    proof {
        lemma_str_bytes(s);
    }
    let bytes = s.as_bytes();
    if !(bytes.len() >= 5 && bytes[0] == 0x3c && bytes[1] == 0x3f && bytes[2] == 0x78 && bytes[3]
        == 0x6d && bytes[4] == 0x6c) {
        proof {
            assert(s.spec_bytes().subrange(0, s.spec_bytes().len() as int) =~= s.spec_bytes());
        }
        return Ok(s);
    }
    let mut n: usize = 5;
    while n < bytes.len()
        invariant
            bytes@ == s.spec_bytes(),
            valid_utf8(bytes@),
            5 <= n <= bytes@.len(),
            grammar::has_declaration(bytes@),
            is_char_boundary(bytes@, bytes@.len() as int),
            find_byte(bytes@, n as int, 0x3f) == find_byte(bytes@, 5, 0x3f),
        decreases bytes@.len() - n,
    {
        if bytes[n] == 0x3f {
            if n + 1 >= bytes.len() {
                return Err(XmlError::UnexpectedEof);
            }
            if bytes[n + 1] != 0x3e {
                return Err(XmlError::UnexpectedChar);
            }
            proof {
                lemma_ascii_is_boundary(bytes@, n + 1);
                lemma_boundary_after_ascii(bytes@, n + 1);
            }
            return Ok(slice_of(s, n + 2, bytes.len()));
        }
        n += 1;
    }
    Err(XmlError::UnexpectedEof)
}

} // verus!
