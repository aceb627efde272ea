//! Writing: a builder that appends tags, attributes and escaped text to a
//! caller's string.

use vstd::prelude::*;
use vstd::string::*;
use crate::escape::{escape, escape_char};

verus! {

#[verifier::external_type_specification]
#[verifier::external_body]
pub struct ExFmtError(core::fmt::Error);

/// How every writing operation ends.
pub type FmtResult = Result<(), core::fmt::Error>;

/// `core::fmt::Error` has one value; this is it.
#[verifier::external_body]
pub(crate) fn fmt_error() -> core::fmt::Error {
    core::fmt::Error
}

/// `<tag>`
pub open spec fn open_tag(tag: Seq<char>) -> Seq<char> {
    seq!['<'] + tag + seq!['>']
}

/// `</tag>`
pub open spec fn close_tag(tag: Seq<char>) -> Seq<char> {
    seq!['<', '/'] + tag + seq!['>']
}

/// `<tag/>`
pub open spec fn empty_tag(tag: Seq<char>) -> Seq<char> {
    seq!['<'] + tag + seq!['/', '>']
}

/// A space, the key, `="`: what stands in front of an attribute's value.
pub open spec fn attribute_start(key: Seq<char>) -> Seq<char> {
    seq![' '] + key + seq!['=', '"']
}

/// ` key="value"`, the value escaped.
pub open spec fn attribute(key: Seq<char>, value: Seq<char>) -> Seq<char> {
    attribute_start(key) + escape(value) + seq!['"']
}

/// The attributes of a list, each as [`attribute`] writes it, in order.
pub open spec fn attribute_list(attrs: Seq<(&str, &str)>) -> Seq<char>
    decreases attrs.len(),
{
    if attrs.len() == 0 {
        Seq::empty()
    } else {
        attribute_list(attrs.drop_last()) + attribute(attrs.last().0@, attrs.last().1@)
    }
}

/// `<tag>text</tag>`, the text escaped.
pub open spec fn leaf(tag: Seq<char>, text: Seq<char>) -> Seq<char> {
    open_tag(tag) + escape(text) + close_tag(tag)
}

/// Appends to a string that the caller owns. Names are written as given;
/// text and attribute values are always escaped.
pub struct XmlBuilder<'w> {
    pub writer: &'w mut String,
}

impl<'w> View for XmlBuilder<'w> {
    type V = Seq<char>;

    /// What the string holds so far.
    open spec fn view(&self) -> Seq<char> {
        self.writer@
    }
}

impl<'w> XmlBuilder<'w> {
    /// A builder that appends to `writer`.
    pub fn new(writer: &'w mut String) -> (r: Self)
        ensures
            r@ == old(writer)@,
            final(r.writer)@ == final(writer)@,
    {
        Self { writer }
    }

    /// Appends `s` as it is.
    pub fn write_str(&mut self, s: &str) -> (r: FmtResult)
        ensures
            r is Ok,
            final(self)@ == old(self)@ + s@,
            final(final(self).writer)@ == final(old(self).writer)@,
    {
        self.writer.append(s);
        Ok(())
    }

    /// Appends `c` as it is.
    pub fn write_char(&mut self, c: char) -> (r: FmtResult)
        ensures
            r is Ok,
            final(self)@ == old(self)@.push(c),
            final(final(self).writer)@ == final(old(self).writer)@,
    {
        self.writer.push(c);
        Ok(())
    }

    /// Appends `<tag>`.
    pub fn tag_open(&mut self, tag: &str) -> (r: FmtResult)
        ensures
            r is Ok,
            final(self)@ == old(self)@ + open_tag(tag@),
            final(final(self).writer)@ == final(old(self).writer)@,
    {
        self.writer.push('<');
        self.writer.append(tag);
        self.writer.push('>');
        assert(self@ =~= old(self)@ + open_tag(tag@));
        Ok(())
    }

    /// Appends `<tag`.
    pub fn tag_open_start(&mut self, tag: &str) -> (r: FmtResult)
        ensures
            r is Ok,
            final(self)@ == old(self)@ + seq!['<'] + tag@,
            final(final(self).writer)@ == final(old(self).writer)@,
    {
        self.writer.push('<');
        self.writer.append(tag);
        assert(self@ =~= old(self)@ + seq!['<'] + tag@);
        Ok(())
    }

    /// Appends `>`.
    pub fn tag_open_end(&mut self) -> (r: FmtResult)
        ensures
            r is Ok,
            final(self)@ == old(self)@.push('>'),
            final(final(self).writer)@ == final(old(self).writer)@,
    {
        self.writer.push('>');
        Ok(())
    }

    /// Appends `</tag>`.
    pub fn tag_close(&mut self, tag: &str) -> (r: FmtResult)
        ensures
            r is Ok,
            final(self)@ == old(self)@ + close_tag(tag@),
            final(final(self).writer)@ == final(old(self).writer)@,
    {
        self.writer.push('<');
        self.writer.push('/');
        self.writer.append(tag);
        self.writer.push('>');
        assert(self@ =~= old(self)@ + close_tag(tag@));
        Ok(())
    }

    /// Appends `/>`.
    pub fn tag_selfclose(&mut self) -> (r: FmtResult)
        ensures
            r is Ok,
            final(self)@ == old(self)@ + seq!['/', '>'],
            final(final(self).writer)@ == final(old(self).writer)@,
    {
        self.writer.push('/');
        self.writer.push('>');
        assert(self@ =~= old(self)@ + seq!['/', '>']);
        Ok(())
    }

    /// Appends `<tag/>`.
    pub fn tag_empty(&mut self, tag: &str) -> (r: FmtResult)
        ensures
            r is Ok,
            final(self)@ == old(self)@ + empty_tag(tag@),
            final(final(self).writer)@ == final(old(self).writer)@,
    {
        self.writer.push('<');
        self.writer.append(tag);
        self.writer.push('/');
        self.writer.push('>');
        assert(self@ =~= old(self)@ + empty_tag(tag@));
        Ok(())
    }

    /// Appends a space, `key` and `="`.
    pub fn attr_start(&mut self, key: &str) -> (r: FmtResult)
        ensures
            r is Ok,
            final(self)@ == old(self)@ + attribute_start(key@),
            final(final(self).writer)@ == final(old(self).writer)@,
    {
        self.writer.push(' ');
        self.writer.append(key);
        self.writer.push('=');
        self.writer.push('"');
        assert(self@ =~= old(self)@ + attribute_start(key@));
        Ok(())
    }

    /// Appends the `"` that ends an attribute's value.
    pub fn attr_end(&mut self) -> (r: FmtResult)
        ensures
            r is Ok,
            final(self)@ == old(self)@.push('"'),
            final(final(self).writer)@ == final(old(self).writer)@,
    {
        self.writer.push('"');
        Ok(())
    }

    /// Appends ` key="value"`, the value escaped.
    pub fn attr(&mut self, key: &str, value: &str) -> (r: FmtResult)
        ensures
            r is Ok,
            final(self)@ == old(self)@ + attribute(key@, value@),
            final(final(self).writer)@ == final(old(self).writer)@,
    {
        self.attr_start(key)?;
        self.text(value)?;
        let r = self.attr_end();
        assert(self@ =~= old(self)@ + attribute(key@, value@));
        r
    }

    /// Appends `text`, escaped.
    pub fn text(&mut self, text: &str) -> (r: FmtResult)
        ensures
            r is Ok,
            final(self)@ == old(self)@ + escape(text@),
            final(final(self).writer)@ == final(old(self).writer)@,
    {
        write_escaped(self.writer, text)
    }

    /// Appends `<tag>text</tag>`, the text escaped.
    pub fn tag_with_text(&mut self, tag: &str, text: &str) -> (r: FmtResult)
        ensures
            r is Ok,
            final(self)@ == old(self)@ + leaf(tag@, text@),
            final(final(self).writer)@ == final(old(self).writer)@,
    {
        self.tag_open(tag)?;
        self.text(text)?;
        let r = self.tag_close(tag);
        assert(self@ =~= old(self)@ + leaf(tag@, text@));
        r
    }

    /// Appends `<tag`, the attributes of `attrs` in order, and `>`.
    pub fn tag_open_attrs(&mut self, tag: &str, attrs: &[(&str, &str)]) -> (r: FmtResult)
        ensures
            r is Ok,
            final(self)@ == old(self)@ + seq!['<'] + tag@ + attribute_list(attrs@) + seq!['>'],
            final(final(self).writer)@ == final(old(self).writer)@,
    {
        self.tag_open_start(tag)?;
        let ghost start = self@;
        let mut i: usize = 0;
        while i < attrs.len()
            invariant
                i <= attrs@.len(),
                self@ == start + attribute_list(attrs@.take(i as int)),
                final(self.writer)@ == final(old(self).writer)@,
            decreases attrs@.len() - i,
        {
            let pair = &attrs[i];
            self.attr(pair.0, pair.1)?;
            proof {
                assert(attrs@.take(i + 1).drop_last() =~= attrs@.take(i as int));
                assert(self@ =~= start + attribute_list(attrs@.take(i + 1)));
            }
            i += 1;
        }
        let r = self.tag_open_end();
        proof {
            assert(attrs@.take(attrs@.len() as int) =~= attrs@);
            assert(self@ =~= old(self)@ + seq!['<'] + tag@ + attribute_list(attrs@) + seq!['>']);
        }
        r
    }
}

/// Appends `s` to `writer`, writing `<`, `>`, `&`, `"` and `'` as entity
/// references and every other character as it is.
pub fn write_escaped(writer: &mut String, s: &str) -> (r: FmtResult)
    ensures
        r is Ok,
        final(writer)@ == old(writer)@ + escape(s@),
{
    proof {
        reveal_strlit("&lt;");
        reveal_strlit("&gt;");
        reveal_strlit("&amp;");
        reveal_strlit("&quot;");
        reveal_strlit("&apos;");
        assert("&lt;"@ =~= seq!['&', 'l', 't', ';']);
        assert("&gt;"@ =~= seq!['&', 'g', 't', ';']);
        assert("&amp;"@ =~= seq!['&', 'a', 'm', 'p', ';']);
        assert("&quot;"@ =~= seq!['&', 'q', 'u', 'o', 't', ';']);
        assert("&apos;"@ =~= seq!['&', 'a', 'p', 'o', 's', ';']);
        assert(old(writer)@ + escape(s@.take(0)) =~= old(writer)@);
    }
    for c in it: s.chars()
        invariant
            it.seq() == s@,
            writer@ == old(writer)@ + escape(s@.take(it.index() as int)),
            "&lt;"@ == seq!['&', 'l', 't', ';'],
            "&gt;"@ == seq!['&', 'g', 't', ';'],
            "&amp;"@ == seq!['&', 'a', 'm', 'p', ';'],
            "&quot;"@ == seq!['&', 'q', 'u', 'o', 't', ';'],
            "&apos;"@ == seq!['&', 'a', 'p', 'o', 's', ';'],
    {
        let ghost before = writer@;
        if c == '<' {
            writer.append("&lt;");
        } else if c == '>' {
            writer.append("&gt;");
        } else if c == '&' {
            writer.append("&amp;");
        } else if c == '"' {
            writer.append("&quot;");
        } else if c == '\'' {
            writer.append("&apos;");
        } else {
            writer.push(c);
        }
        proof {
            let i = it.index() as int;
            assert(s@.take(i + 1).drop_last() =~= s@.take(i));
            assert(s@.take(i + 1).last() == c);
            assert(writer@ =~= before + escape_char(c));
            assert(writer@ =~= old(writer)@ + escape(s@.take(i + 1)));
        }
    }
    proof {
        assert(s@.take(s@.len() as int) =~= s@);
    }
    Ok(())
}

} // verus!
