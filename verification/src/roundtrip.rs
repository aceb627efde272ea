//! What is written is read back.
//!
//! The builder writes characters and the tokenizer reads bytes. The laws
//! of this module join the two: the tokens found in the bytes of a written
//! element or attribute are the ones that were written, and the text of a
//! written value stands for that value.

use vstd::prelude::*;
use vstd::utf8::*;
use crate::de::XmlError;
use crate::decimal::{
    bool_text, decimal, is_digit, lemma_decimal, lemma_parse_bool, lemma_parse_decimal, parse_bool,
    parse_within, signed_decimal,
};
use crate::derive::de::{document_end, DeXml, DeXmlAttr};
use crate::derive::ser::{
    attribute_of, element, elements, lemma_elements_in_order, SerXml, SerXmlAsAttr,
};
use crate::escape::{
    escape, escape_char, is_delimiter, lemma_escape_first, lemma_escape_no_delimiter,
    lemma_unescape_escape, unescape,
};
use crate::grammar;
use crate::grammar::{is_name_byte, is_space, Cursor};
use crate::ser::{attribute_start, close_tag, open_tag};
use crate::text::{
    is_ascii_char, lemma_ascii_byte_is_char, lemma_ascii_encoding, lemma_encode_concat,
    lemma_first_char, text_of, trimmed,
};

verus! {

/// Whether `c` can stand in a name: an ASCII letter or digit, `_`, `-` or `:`.
pub open spec fn is_name_char(c: char) -> bool {
    ('A' <= c <= 'Z') || ('a' <= c <= 'z') || ('0' <= c <= '9') || c == '_' || c == '-' || c == ':'
}

/// Whether `name` can stand as the name of a tag or an attribute.
pub open spec fn is_name(name: Seq<char>) -> bool {
    name.len() > 0 && forall|i: int| 0 <= i < name.len() ==> is_name_char(#[trigger] name[i])
}

/// Whether `c` is ASCII whitespace.
pub open spec fn is_space_char(c: char) -> bool {
    c == ' ' || c == '\t' || c == '\n' || c == '\u{c}' || c == '\r'
}

/// Whether `body`, written between an opening and a closing tag, is read
/// back as the text of a leaf that holds all of it: it does not start with
/// whitespace, which the tokenizer skips, nor with `>`, and holds no `<`.
/// The empty text is one: it is read back from an element without text.
pub open spec fn is_leaf_text(body: Seq<char>) -> bool {
    &&& body.len() > 0 ==> !is_space_char(body[0]) && body[0] != '>'
    &&& forall|i: int| 0 <= i < body.len() ==> #[trigger] body[i] != '<'
}

/// Whether the characters of `text` stand in `src` from `pos` on.
pub open spec fn written_at(src: Seq<u8>, pos: int, text: Seq<char>) -> bool {
    &&& 0 <= pos
    &&& pos + encode_utf8(text).len() <= src.len()
    &&& src.subrange(pos, pos + encode_utf8(text).len()) == encode_utf8(text)
}

/// The bytes of a name are name bytes, one for each character.
proof fn lemma_name_bytes(name: Seq<char>)
    requires
        is_name(name),
    ensures
        encode_utf8(name).len() == name.len(),
        forall|i: int| 0 <= i < name.len() ==> is_name_byte(#[trigger] encode_utf8(name)[i]),
        decode_utf8(encode_utf8(name)) == name,
{
    assert(is_ascii_chars(name)) by {
        assert forall|i: int| 0 <= i < name.len() implies '\0' <= #[trigger] name[i] <= '\u{7f}' by {
            assert(is_name_char(name[i]));
        }
    }
    lemma_ascii_encoding(name);
    encode_utf8_decode_utf8(name);
    assert forall|i: int| 0 <= i < name.len() implies is_name_byte(
        #[trigger] encode_utf8(name)[i],
    ) by {
        assert(is_name_char(name[i]));
        assert(encode_utf8(name)[i] == name[i] as u8);
    }
}

/// The bytes of text without a delimiter hold no delimiter byte; its first
/// byte is whitespace, or `>`, only if its first character is.
proof fn lemma_text_bytes(body: Seq<char>, delim: char)
    requires
        is_ascii_char(delim),
        forall|i: int| 0 <= i < body.len() ==> #[trigger] body[i] != delim,
    ensures
        forall|i: int| 0 <= i < encode_utf8(body).len() ==> #[trigger] encode_utf8(body)[i]
            != delim as u8,
        decode_utf8(encode_utf8(body)) == body,
        body.len() > 0 ==> encode_utf8(body).len() > 0 && (is_space(encode_utf8(body)[0])
            ==> is_space_char(body[0])) && (encode_utf8(body)[0] == 0x3e ==> body[0] == '>'),
{
    encode_utf8_decode_utf8(body);
    assert forall|i: int| 0 <= i < encode_utf8(body).len() implies #[trigger] encode_utf8(body)[i]
        != delim as u8 by {
        if encode_utf8(body)[i] == delim as u8 {
            let j = lemma_ascii_byte_is_char(body, i);
            assert(body[j] == delim);
        }
    }
    if body.len() > 0 {
        lemma_first_char(body);
    }
}

/// The bytes of a written element, piece by piece.
proof fn lemma_element_bytes(tag: Seq<char>, body: Seq<char>)
    ensures
        encode_utf8(open_tag(tag) + body + close_tag(tag)) == seq![0x3cu8] + encode_utf8(tag)
            + seq![0x3eu8] + encode_utf8(body) + seq![0x3cu8, 0x2fu8] + encode_utf8(tag)
            + seq![0x3eu8],
{
    let lt = seq!['<'];
    let gt = seq!['>'];
    let ls = seq!['<', '/'];
    assert(is_ascii_chars(lt));
    assert(is_ascii_chars(gt));
    assert(is_ascii_chars(ls));
    lemma_ascii_encoding(lt);
    lemma_ascii_encoding(gt);
    lemma_ascii_encoding(ls);
    assert(encode_utf8(lt) =~= seq![0x3cu8]);
    assert(encode_utf8(gt) =~= seq![0x3eu8]);
    assert(encode_utf8(ls) =~= seq![0x3cu8, 0x2fu8]);
    lemma_encode_concat(lt, tag);
    lemma_encode_concat(lt + tag, gt);
    lemma_encode_concat(open_tag(tag), body);
    lemma_encode_concat(ls, tag);
    lemma_encode_concat(ls + tag, gt);
    lemma_encode_concat(open_tag(tag) + body, close_tag(tag));
    assert(encode_utf8(open_tag(tag) + body + close_tag(tag)) =~= seq![0x3cu8] + encode_utf8(tag)
        + seq![0x3eu8] + encode_utf8(body) + seq![0x3cu8, 0x2fu8] + encode_utf8(tag)
        + seq![0x3eu8]);
}

/// Where each piece of a written element stands in the source.
proof fn lemma_element_layout(src: Seq<u8>, p: int, tag: Seq<char>, body: Seq<char>)
    requires
        is_name(tag),
        is_leaf_text(body),
        written_at(src, p, open_tag(tag) + body + close_tag(tag)),
    ensures
        ({
            let nt = tag.len() as int;
            let nb = encode_utf8(body).len() as int;
            let inside = p + 1 + nt;
            let close = inside + 1 + nb;
            let end = close + 2 + nt;
            &&& (nb > 0 <==> body.len() > 0)
            &&& end + 1 == p + encode_utf8(open_tag(tag) + body + close_tag(tag)).len()
            &&& end < src.len()
            &&& src[p] == 0x3c
            &&& forall|i: int| p + 1 <= i < inside ==> is_name_byte(src[i])
            &&& src[inside] == 0x3e
            &&& nb > 0 ==> !is_space(src[inside + 1]) && src[inside + 1] != 0x3e
            &&& forall|i: int| inside + 1 <= i < close ==> src[i] != 0x3c
            &&& src[close] == 0x3c
            &&& src[close + 1] == 0x2f
            &&& forall|i: int| close + 2 <= i < end ==> is_name_byte(src[i])
            &&& src[end] == 0x3e
            &&& text_of(src, p + 1, inside) == tag
            &&& text_of(src, inside + 1, close) == body
            &&& text_of(src, close + 2, end) == tag
        }),
{
    let t = encode_utf8(tag);
    let b = encode_utf8(body);
    let e = encode_utf8(open_tag(tag) + body + close_tag(tag));
    lemma_element_bytes(tag, body);
    lemma_name_bytes(tag);
    lemma_text_bytes(body, '<');
    let nt = t.len() as int;
    let nb = b.len() as int;
    let at_name = p + 1;
    let at_gt = at_name + nt;
    let at_body = at_gt + 1;
    let at_close = at_body + nb;
    let at_close_name = at_close + 2;
    let at_end = at_close_name + nt;
    assert(e.len() == 2 * nt + nb + 5);
    assert forall|i: int| 0 <= i < e.len() implies src[p + i] == #[trigger] e[i] by {
        assert(src.subrange(p, p + e.len())[i] == src[p + i]);
    }
    assert(src[p] == 0x3c) by {
        assert(e[0] == 0x3c);
    }
    assert forall|i: int| at_name <= i < at_gt implies is_name_byte(src[i]) by {
        assert(e[i - p] == t[i - at_name]);
    }
    assert(src[at_gt] == 0x3e) by {
        assert(e[at_gt - p] == 0x3e);
    }
    assert forall|i: int| at_body <= i < at_close implies src[i] != 0x3c by {
        assert(e[i - p] == b[i - at_body]);
    }
    if body.len() > 0 {
        assert(src[at_body] == b[0]) by {
            assert(e[at_body - p] == b[0]);
        }
    }
    assert(src[at_close] == 0x3c && src[at_close + 1] == 0x2f) by {
        assert(e[at_close - p] == 0x3c);
        assert(e[at_close + 1 - p] == 0x2f);
    }
    assert forall|i: int| at_close_name <= i < at_end implies is_name_byte(src[i]) by {
        assert(e[i - p] == t[i - at_close_name]);
    }
    assert(src[at_end] == 0x3e) by {
        assert(e[at_end - p] == 0x3e);
    }
    assert(src.subrange(at_name, at_gt) =~= t) by {
        assert forall|i: int| 0 <= i < nt implies src.subrange(at_name, at_gt)[i] == t[i] by {
            assert(e[i + 1] == t[i]);
        }
    }
    assert(src.subrange(at_body, at_close) =~= b) by {
        assert forall|i: int| 0 <= i < nb implies src.subrange(at_body, at_close)[i] == b[i] by {
            assert(e[i + at_body - p] == b[i]);
        }
    }
    assert(src.subrange(at_close_name, at_end) =~= t) by {
        assert forall|i: int| 0 <= i < nt implies src.subrange(at_close_name, at_end)[i] == t[i] by {
            assert(e[i + at_close_name - p] == t[i]);
        }
    }
}

/// A written element is read back. Where the source holds, from the cursor
/// on, `<tag>`, a body that can stand as the text of a leaf, and `</tag>`, the
/// tokenizer finds the opening tag under its name, then the body as the
/// element of a leaf, and stands behind the element, outside any tag.
pub proof fn lemma_read_element(src: Seq<u8>, c: Cursor, tag: Seq<char>, body: Seq<char>)
    requires
        !c.pending_close,
        is_name(tag),
        is_leaf_text(body),
        written_at(src, c.pos, open_tag(tag) + body + close_tag(tag)),
    ensures
        grammar::open_start(src, c, tag) == Ok::<Cursor, XmlError>(
            Cursor { pos: c.pos + 1 + tag.len(), in_tag: true, pending_close: false },
        ),
        grammar::leaf_element(
            src,
            Cursor { pos: c.pos + 1 + tag.len(), in_tag: true, pending_close: false },
        ) == Ok::<(Seq<char>, Cursor), XmlError>(
            (
                body,
                Cursor {
                    pos: c.pos + encode_utf8(open_tag(tag) + body + close_tag(tag)).len(),
                    in_tag: false,
                    pending_close: false,
                },
            ),
        ),
{
    lemma_element_layout(src, c.pos, tag, body);
    let inside = c.pos + 1 + tag.len();
    let close = inside + 1 + encode_utf8(body).len();
    let end = close + 2 + tag.len();
    let c1 = Cursor { pos: inside, in_tag: true, pending_close: false };
    let c2 = Cursor { pos: inside + 1, in_tag: false, pending_close: false };
    let c3 = Cursor { pos: close, in_tag: false, pending_close: false };
    let c4 = Cursor { pos: end + 1, in_tag: false, pending_close: false };
    grammar::lemma_token_open_start(src, c, inside);
    grammar::lemma_token_open_end(src, c1);
    grammar::lemma_token_close(src, c3, end);
    assert(grammar::open_start(src, c, tag) == Ok::<Cursor, XmlError>(c1));
    assert(grammar::open_end(src, c1) == Ok::<Cursor, XmlError>(c2));
    assert(grammar::close_matches(tag, Seq::<char>::empty()));
    assert(grammar::close(src, c3, Seq::<char>::empty()) == Ok::<Cursor, XmlError>(c4));
    if body.len() > 0 {
        grammar::lemma_token_text(src, c2, close);
        assert(grammar::text(src, c2) == Ok::<(Seq<char>, Cursor), XmlError>((body, c3)));
    } else {
        assert(c2 == c3);
        assert(body =~= Seq::<char>::empty());
    }
    assert(grammar::text_then_close(src, c2, Seq::<char>::empty()) == Ok::<
        (Seq<char>, Cursor),
        XmlError,
    >((body, c4)));
}

/// The bytes of a written attribute, piece by piece.
proof fn lemma_attribute_bytes(key: Seq<char>, raw: Seq<char>)
    ensures
        encode_utf8(attribute_start(key) + raw + seq!['"']) == seq![0x20u8] + encode_utf8(key)
            + seq![0x3du8, 0x22u8] + encode_utf8(raw) + seq![0x22u8],
{
    let sp = seq![' '];
    let eq = seq!['=', '"'];
    let qu = seq!['"'];
    assert(is_ascii_chars(sp));
    assert(is_ascii_chars(eq));
    assert(is_ascii_chars(qu));
    lemma_ascii_encoding(sp);
    lemma_ascii_encoding(eq);
    lemma_ascii_encoding(qu);
    assert(encode_utf8(sp) =~= seq![0x20u8]);
    assert(encode_utf8(eq) =~= seq![0x3du8, 0x22u8]);
    assert(encode_utf8(qu) =~= seq![0x22u8]);
    lemma_encode_concat(sp, key);
    lemma_encode_concat(sp + key, eq);
    lemma_encode_concat(attribute_start(key), raw);
    lemma_encode_concat(attribute_start(key) + raw, qu);
    assert(encode_utf8(attribute_start(key) + raw + seq!['"']) =~= seq![0x20u8] + encode_utf8(key)
        + seq![0x3du8, 0x22u8] + encode_utf8(raw) + seq![0x22u8]);
}

/// A written attribute is read back. Where the source holds, from the
/// cursor on and inside a tag, a space, a key, `="`, a value without `"`, and
/// `"`, the tokenizer finds the attribute with that key and that value, and
/// stands behind it.
pub proof fn lemma_read_attribute(src: Seq<u8>, c: Cursor, key: Seq<char>, raw: Seq<char>)
    requires
        c.in_tag,
        !c.pending_close,
        is_name(key),
        forall|i: int| 0 <= i < raw.len() ==> #[trigger] raw[i] != '"',
        written_at(src, c.pos, attribute_start(key) + raw + seq!['"']),
    ensures
        grammar::attribute(src, c) == Ok::<((Seq<char>, Seq<char>), Cursor), XmlError>(
            (
                (key, raw),
                Cursor {
                    pos: c.pos + encode_utf8(attribute_start(key) + raw + seq!['"']).len(),
                    ..c
                },
            ),
        ),
{
    let k = encode_utf8(key);
    let v = encode_utf8(raw);
    let e = encode_utf8(attribute_start(key) + raw + seq!['"']);
    lemma_attribute_bytes(key, raw);
    lemma_name_bytes(key);
    lemma_text_bytes(raw, '"');
    let nk = k.len() as int;
    let nv = v.len() as int;
    let p = c.pos;
    let at_key = p + 1;
    let at_eq = at_key + nk;
    let at_value = at_eq + 2;
    let at_quote = at_value + nv;
    assert(e.len() == nk + nv + 4);
    assert forall|i: int| 0 <= i < e.len() implies src[p + i] == #[trigger] e[i] by {
        assert(src.subrange(p, p + e.len())[i] == src[p + i]);
    }
    assert(src[p] == 0x20) by {
        assert(e[0] == 0x20);
    }
    assert forall|i: int| at_key <= i < at_eq implies is_name_byte(src[i]) by {
        assert(e[i - p] == k[i - at_key]);
    }
    assert(src[at_eq] == 0x3d && src[at_eq + 1] == 0x22) by {
        assert(e[at_eq - p] == 0x3d);
        assert(e[at_eq + 1 - p] == 0x22);
    }
    assert forall|i: int| at_value <= i < at_quote implies src[i] != 0x22 by {
        assert(e[i - p] == v[i - at_value]);
    }
    assert(src[at_quote] == 0x22) by {
        assert(e[at_quote - p] == 0x22);
    }
    assert(src.subrange(at_key, at_eq) =~= k) by {
        assert forall|i: int| 0 <= i < nk implies src.subrange(at_key, at_eq)[i] == k[i] by {
            assert(e[i + 1] == k[i]);
        }
    }
    assert(src.subrange(at_value, at_quote) =~= v) by {
        assert forall|i: int| 0 <= i < nv implies src.subrange(at_value, at_quote)[i] == v[i] by {
            assert(e[i + at_value - p] == v[i]);
        }
    }
    grammar::lemma_token_attribute(src, c, at_key, at_eq, at_quote);
}

/// The text that a string is written as stands for the string, wherever
/// it is read as a value: decoding undoes escaping.
pub proof fn lemma_string_text(s: Seq<char>)
    ensures
        unescape(escape(s)) == s,
        forall|i: int| 0 <= i < escape(s).len() ==> #[trigger] escape(s)[i] != '"',
        forall|i: int| 0 <= i < escape(s).len() ==> #[trigger] escape(s)[i] != '<',
        (s.len() > 0 ==> !is_space_char(s[0])) ==> is_leaf_text(escape(s)),
{
    lemma_unescape_escape(s);
    lemma_escape_no_delimiter(s);
    assert forall|i: int| 0 <= i < escape(s).len() implies #[trigger] escape(s)[i] != '"' by {
        assert(!is_delimiter(escape(s)[i]));
    }
    assert forall|i: int| 0 <= i < escape(s).len() implies #[trigger] escape(s)[i] != '<' by {
        assert(!is_delimiter(escape(s)[i]));
    }
    if s.len() > 0 && !is_space_char(s[0]) {
        lemma_escape_first(s);
        let head = escape_char(s[0]);
        assert(escape(s)[0] == head[0]);
    }
}

/// The text that a number is written as stands for the number, and is
/// read back whole as the body of an element and as the value of an
/// attribute.
pub proof fn lemma_number_text(n: int, signed: bool, lo: int, hi: int)
    requires
        lo <= n <= hi,
        signed || n >= 0,
    ensures
        parse_within(signed_decimal(n), signed, lo, hi) == Some(n),
        is_leaf_text(signed_decimal(n)),
        forall|i: int| 0 <= i < signed_decimal(n).len() ==> #[trigger] signed_decimal(n)[i] != '"',
{
    lemma_parse_decimal(n, signed);
    let s = signed_decimal(n);
    let m = if n < 0 {
        (-n) as nat
    } else {
        n as nat
    };
    lemma_decimal(m);
    assert forall|i: int| 0 <= i < s.len() implies (is_digit(#[trigger] s[i]) || s[i] == '-') by {
        if n < 0 {
            if i > 0 {
                assert(s[i] == decimal(m)[i - 1]);
            }
        }
    }
    assert(is_digit(s[0]) || s[0] == '-');
}

/// The text that a truth value is written as stands for the value, and is
/// read back whole as the body of an element and as the value of an
/// attribute.
pub proof fn lemma_bool_text(b: bool)
    ensures
        parse_bool(bool_text(b)) == Some(b),
        is_leaf_text(bool_text(b)),
        forall|i: int| 0 <= i < bool_text(b).len() ==> #[trigger] bool_text(b)[i] != '"',
{
    lemma_parse_bool(b);
}

/// A leaf is read back from what it wrote. Let a value without attributes
/// write the element `<tag>body</tag>`, with a body that can stand as the
/// text of a leaf. Where the source holds that element at the cursor, the
/// opening tag is found under its name, and reading a value behind it
/// succeeds exactly if the body stands for a value, gives exactly the
/// values the body stands for, and ends behind the element.
pub proof fn lemma_leaf_round_trip<'a, T: SerXml + DeXmlAttr<'a>>(
    v: T,
    src: Seq<u8>,
    c: Cursor,
    tag: Seq<char>,
)
    requires
        !c.pending_close,
        is_name(tag),
        v.attrs_text() == Some(Seq::<char>::empty()),
        v.body_text() is Some,
        is_leaf_text(v.body_text()->0),
        v.xml_text(tag) == element(tag, v.attrs_text(), v.body_text()),
        written_at(src, c.pos, v.xml_text(tag)->0),
    ensures
        ({
            let body = v.body_text()->0;
            let inside = Cursor { pos: c.pos + 1 + tag.len(), in_tag: true, pending_close: false };
            let end = Cursor {
                pos: c.pos + encode_utf8(v.xml_text(tag)->0).len(),
                in_tag: false,
                pending_close: false,
            };
            &&& grammar::open_start(src, c, tag) == Ok::<Cursor, XmlError>(inside)
            &&& <T as DeXml>::de_end(src, inside) == (match T::attr_error(body) {
                Some(e) => Err::<Cursor, XmlError>(e),
                None => Ok(end),
            })
            &&& forall|w: T| <T as DeXml>::de_value(src, inside, w) == T::attr_value(body, w)
        }),
{
    let body = v.body_text()->0;
    assert(v.xml_text(tag)->0 =~= open_tag(tag) + body + close_tag(tag));
    lemma_read_element(src, c, tag, body);
}

/// A document is read back from what was written. Let a value without
/// attributes write the element `<tag>body</tag>`, with a body that can
/// stand as the text of a leaf, and let that element be the whole input. Then
/// nothing is trimmed from the input and it has no declaration to skip; the
/// root is found under its tag; reading the document succeeds exactly if
/// the body stands for a value, and gives exactly the values that the body
/// stands for.
pub proof fn lemma_document_round_trip<'a, T: SerXml + DeXmlAttr<'a>>(v: T, tag: Seq<char>)
    requires
        is_name(tag),
        v.attrs_text() == Some(Seq::<char>::empty()),
        v.body_text() is Some,
        is_leaf_text(v.body_text()->0),
        v.xml_text(tag) == element(tag, v.attrs_text(), v.body_text()),
    ensures
        ({
            let written = v.xml_text(tag)->0;
            let src = encode_utf8(written);
            let body = v.body_text()->0;
            let inside = Cursor { pos: 1 + tag.len() as int, in_tag: true, pending_close: false };
            &&& trimmed(written) == written
            &&& grammar::document_start(src) == Ok::<int, XmlError>(0)
            &&& src.subrange(0, src.len() as int) == src
            &&& grammar::open_start(src, grammar::start(), tag) == Ok::<Cursor, XmlError>(inside)
            &&& document_end::<T>(src, tag) is Ok <==> T::attr_error(body) is None
            &&& T::attr_error(body) matches Some(e) ==> document_end::<T>(src, tag) == Err::<
                Cursor,
                XmlError,
            >(e)
            &&& forall|w: T| <T as DeXml>::de_value(src, inside, w) == T::attr_value(body, w)
        }),
{
    let body = v.body_text()->0;
    let written = v.xml_text(tag)->0;
    let src = encode_utf8(written);
    assert(written =~= open_tag(tag) + body + close_tag(tag));
    assert(written[0] == '<');
    assert(written.last() == '>');
    assert(src.subrange(0, src.len() as int) =~= src);
    lemma_element_layout(src, 0, tag, body);
    assert(is_name_byte(src[1]));
    lemma_leaf_round_trip(v, src, grammar::start(), tag);
    let end = Cursor { pos: src.len() as int, in_tag: false, pending_close: false };
    assert(grammar::skip_spaces(src, end.pos) == end.pos);
    assert(grammar::at_end(src, end));
}

/// Whether `v` is written under `tag` as a leaf: as one element without
/// attributes, `<tag>body</tag>`, with a body that can stand as the text of
/// a leaf.
pub open spec fn is_leaf<T: SerXml>(v: T, tag: Seq<char>) -> bool {
    &&& v.attrs_text() == Some(Seq::<char>::empty())
    &&& v.body_text() is Some
    &&& is_leaf_text(v.body_text()->0)
    &&& v.xml_text(tag) == element(tag, v.attrs_text(), v.body_text())
}

/// Whether every item of a sequence is written under `tag` as a leaf.
pub open spec fn are_leaves<T: SerXml>(items: Seq<T>, tag: Seq<char>) -> bool {
    forall|i: int| 0 <= i < items.len() ==> is_leaf(#[trigger] items[i], tag)
}

/// A sequence of leaves can be written, and so can every part of it that
/// reaches up to one of its items.
proof fn lemma_leaves_written<T: SerXml>(items: Seq<T>, tag: Seq<char>, k: int)
    requires
        are_leaves(items, tag),
        0 <= k <= items.len(),
    ensures
        elements(items.take(k), tag) is Some,
    decreases k,
{
    if k > 0 {
        lemma_leaves_written(items, tag, k - 1);
        assert(items.take(k).drop_last() =~= items.take(k - 1));
        assert(items.take(k).last() == items[k - 1]);
        assert(is_leaf(items[k - 1], tag));
    } else {
        assert(items.take(0).len() == 0);
    }
}

/// What stands in the middle of a written text stands in the source, behind
/// what stands in front of it.
proof fn lemma_written_part(
    src: Seq<u8>,
    pos: int,
    front: Seq<char>,
    middle: Seq<char>,
    back: Seq<char>,
)
    requires
        written_at(src, pos, front + middle + back),
    ensures
        written_at(src, pos + encode_utf8(front).len(), middle),
{
    let f = encode_utf8(front);
    let m = encode_utf8(middle);
    let b = encode_utf8(back);
    let whole = encode_utf8(front + middle + back);
    lemma_encode_concat(front, middle);
    lemma_encode_concat(front + middle, back);
    assert(whole == f + m + b);
    let at = pos + f.len();
    assert(src.subrange(at, at + m.len()) =~= m) by {
        assert forall|i: int| 0 <= i < m.len() implies src.subrange(at, at + m.len())[i] == m[i] by {
            assert(src.subrange(pos, pos + whole.len())[f.len() + i] == whole[f.len() + i]);
        }
    }
}

/// A sequence is read back in the order in which it was written. Let a
/// sequence of leaves be written under `tag` and stand in the source from
/// `pos` on. Then its items are read one behind the other: where what the
/// items before an item wrote ends, the opening tag of that item is found,
/// under `tag`; reading a value behind it succeeds exactly if the item's body
/// stands for a value, gives exactly the values that body stands for, and
/// ends where the next item starts, outside any tag.
pub proof fn lemma_elements_read_in_order<'a, T: SerXml + DeXmlAttr<'a>>(
    items: Seq<T>,
    src: Seq<u8>,
    pos: int,
    tag: Seq<char>,
    i: int,
)
    requires
        is_name(tag),
        are_leaves(items, tag),
        written_at(src, pos, elements(items, tag)->0),
        0 <= i < items.len(),
    ensures
        ({
            let body = items[i].body_text()->0;
            let start = pos + encode_utf8(elements(items.take(i), tag)->0).len();
            let end = pos + encode_utf8(elements(items.take(i + 1), tag)->0).len();
            let at = Cursor { pos: start, in_tag: false, pending_close: false };
            let inside = Cursor { pos: start + 1 + tag.len(), in_tag: true, pending_close: false };
            let behind = Cursor { pos: end, in_tag: false, pending_close: false };
            &&& elements(items, tag) is Some
            &&& elements(items.take(i), tag) is Some
            &&& elements(items.take(i + 1), tag) is Some
            &&& grammar::open_start(src, at, tag) == Ok::<Cursor, XmlError>(inside)
            &&& <T as DeXml>::de_end(src, inside) == (match T::attr_error(body) {
                Some(e) => Err::<Cursor, XmlError>(e),
                None => Ok(behind),
            })
            &&& forall|w: T| <T as DeXml>::de_value(src, inside, w) == T::attr_value(body, w)
        }),
{
    let before = elements(items.take(i), tag);
    let one = items[i].xml_text(tag);
    let after = elements(items.skip(i + 1), tag);
    lemma_leaves_written(items, tag, i);
    lemma_leaves_written(items, tag, i + 1);
    lemma_leaves_written(items, tag, items.len() as int);
    assert(items.take(items.len() as int) =~= items);
    lemma_elements_in_order(items, tag, i);
    assert(is_leaf(items[i], tag));
    lemma_written_part(src, pos, before->0, one->0, after->0);
    assert(items.take(i + 1).drop_last() =~= items.take(i));
    assert(items.take(i + 1).last() == items[i]);
    assert(elements(items.take(i + 1), tag)->0 == before->0 + one->0);
    lemma_encode_concat(before->0, one->0);
    let at = Cursor {
        pos: pos + encode_utf8(before->0).len(),
        in_tag: false,
        pending_close: false,
    };
    lemma_leaf_round_trip(items[i], src, at, tag);
}

/// An attribute is read back from what was written. Let a value write the
/// attribute
/// ` key="body"`, with a body without `"`. Where the source holds that
/// attribute at the cursor, inside a tag, it is found under its key with
/// the body as its value.
pub proof fn lemma_attribute_round_trip<T: SerXmlAsAttr>(
    v: T,
    src: Seq<u8>,
    c: Cursor,
    key: Seq<char>,
)
    requires
        c.in_tag,
        !c.pending_close,
        is_name(key),
        v.body_text() is Some,
        forall|i: int| 0 <= i < v.body_text()->0.len() ==> #[trigger] v.body_text()->0[i] != '"',
        v.attr_text(key) == attribute_of(key, v.body_text()),
        written_at(src, c.pos, v.attr_text(key)->0),
    ensures
        grammar::attribute(src, c) == Ok::<((Seq<char>, Seq<char>), Cursor), XmlError>(
            (
                (key, v.body_text()->0),
                Cursor { pos: c.pos + encode_utf8(v.attr_text(key)->0).len(), ..c },
            ),
        ),
{
    lemma_read_attribute(src, c, key, v.body_text()->0);
}

/// What a `u8` writes is read back as the same number, as the body of an
/// element and as the value of an attribute.
pub proof fn lemma_u8_reads_back(v: u8, w: u8)
    ensures
        v.body_text() == Some(signed_decimal(v as int)),
        is_leaf_text(signed_decimal(v as int)),
        forall|i: int|
            0 <= i < signed_decimal(v as int).len() ==> #[trigger] signed_decimal(v as int)[i]
                != '"',
        <u8 as DeXmlAttr>::attr_error(signed_decimal(v as int)) is None,
        <u8 as DeXmlAttr>::attr_value(signed_decimal(v as int), w) <==> w == v,
{
    lemma_number_text(v as int, false, u8::MIN as int, u8::MAX as int);
}

/// What a `u16` writes is read back as the same number, as the body of an
/// element and as the value of an attribute.
pub proof fn lemma_u16_reads_back(v: u16, w: u16)
    ensures
        v.body_text() == Some(signed_decimal(v as int)),
        is_leaf_text(signed_decimal(v as int)),
        forall|i: int|
            0 <= i < signed_decimal(v as int).len() ==> #[trigger] signed_decimal(v as int)[i]
                != '"',
        <u16 as DeXmlAttr>::attr_error(signed_decimal(v as int)) is None,
        <u16 as DeXmlAttr>::attr_value(signed_decimal(v as int), w) <==> w == v,
{
    lemma_number_text(v as int, false, u16::MIN as int, u16::MAX as int);
}

/// What a `u32` writes is read back as the same number, as the body of an
/// element and as the value of an attribute.
pub proof fn lemma_u32_reads_back(v: u32, w: u32)
    ensures
        v.body_text() == Some(signed_decimal(v as int)),
        is_leaf_text(signed_decimal(v as int)),
        forall|i: int|
            0 <= i < signed_decimal(v as int).len() ==> #[trigger] signed_decimal(v as int)[i]
                != '"',
        <u32 as DeXmlAttr>::attr_error(signed_decimal(v as int)) is None,
        <u32 as DeXmlAttr>::attr_value(signed_decimal(v as int), w) <==> w == v,
{
    lemma_number_text(v as int, false, u32::MIN as int, u32::MAX as int);
}

/// What a `u64` writes is read back as the same number, as the body of an
/// element and as the value of an attribute.
pub proof fn lemma_u64_reads_back(v: u64, w: u64)
    ensures
        v.body_text() == Some(signed_decimal(v as int)),
        is_leaf_text(signed_decimal(v as int)),
        forall|i: int|
            0 <= i < signed_decimal(v as int).len() ==> #[trigger] signed_decimal(v as int)[i]
                != '"',
        <u64 as DeXmlAttr>::attr_error(signed_decimal(v as int)) is None,
        <u64 as DeXmlAttr>::attr_value(signed_decimal(v as int), w) <==> w == v,
{
    lemma_number_text(v as int, false, u64::MIN as int, u64::MAX as int);
}

/// What a `i8` writes is read back as the same number, as the body of an
/// element and as the value of an attribute.
pub proof fn lemma_i8_reads_back(v: i8, w: i8)
    ensures
        v.body_text() == Some(signed_decimal(v as int)),
        is_leaf_text(signed_decimal(v as int)),
        forall|i: int|
            0 <= i < signed_decimal(v as int).len() ==> #[trigger] signed_decimal(v as int)[i]
                != '"',
        <i8 as DeXmlAttr>::attr_error(signed_decimal(v as int)) is None,
        <i8 as DeXmlAttr>::attr_value(signed_decimal(v as int), w) <==> w == v,
{
    lemma_number_text(v as int, true, i8::MIN as int, i8::MAX as int);
}

/// What a `i16` writes is read back as the same number, as the body of an
/// element and as the value of an attribute.
pub proof fn lemma_i16_reads_back(v: i16, w: i16)
    ensures
        v.body_text() == Some(signed_decimal(v as int)),
        is_leaf_text(signed_decimal(v as int)),
        forall|i: int|
            0 <= i < signed_decimal(v as int).len() ==> #[trigger] signed_decimal(v as int)[i]
                != '"',
        <i16 as DeXmlAttr>::attr_error(signed_decimal(v as int)) is None,
        <i16 as DeXmlAttr>::attr_value(signed_decimal(v as int), w) <==> w == v,
{
    lemma_number_text(v as int, true, i16::MIN as int, i16::MAX as int);
}

/// What a `i32` writes is read back as the same number, as the body of an
/// element and as the value of an attribute.
pub proof fn lemma_i32_reads_back(v: i32, w: i32)
    ensures
        v.body_text() == Some(signed_decimal(v as int)),
        is_leaf_text(signed_decimal(v as int)),
        forall|i: int|
            0 <= i < signed_decimal(v as int).len() ==> #[trigger] signed_decimal(v as int)[i]
                != '"',
        <i32 as DeXmlAttr>::attr_error(signed_decimal(v as int)) is None,
        <i32 as DeXmlAttr>::attr_value(signed_decimal(v as int), w) <==> w == v,
{
    lemma_number_text(v as int, true, i32::MIN as int, i32::MAX as int);
}

/// What a `i64` writes is read back as the same number, as the body of an
/// element and as the value of an attribute.
pub proof fn lemma_i64_reads_back(v: i64, w: i64)
    ensures
        v.body_text() == Some(signed_decimal(v as int)),
        is_leaf_text(signed_decimal(v as int)),
        forall|i: int|
            0 <= i < signed_decimal(v as int).len() ==> #[trigger] signed_decimal(v as int)[i]
                != '"',
        <i64 as DeXmlAttr>::attr_error(signed_decimal(v as int)) is None,
        <i64 as DeXmlAttr>::attr_value(signed_decimal(v as int), w) <==> w == v,
{
    lemma_number_text(v as int, true, i64::MIN as int, i64::MAX as int);
}

/// What a truth value writes is read back as the same value, as the body
/// of an element and as the value of an attribute.
pub proof fn lemma_bool_reads_back(v: bool, w: bool)
    ensures
        v.body_text() == Some(bool_text(v)),
        is_leaf_text(bool_text(v)),
        forall|i: int| 0 <= i < bool_text(v).len() ==> #[trigger] bool_text(v)[i] != '"',
        <bool as DeXmlAttr>::attr_error(bool_text(v)) is None,
        <bool as DeXmlAttr>::attr_value(bool_text(v), w) <==> w == v,
{
    lemma_bool_text(v);
}

/// What a string writes is read back as a string of the same characters:
/// always as the value of an attribute, and as the body of an element if
/// the string does not start with whitespace. The empty string is read
/// back from `<tag></tag>`.
pub proof fn lemma_string_reads_back(v: String, w: String)
    ensures
        v.body_text() == Some(escape(v@)),
        (v@.len() > 0 ==> !is_space_char(v@[0])) ==> is_leaf_text(escape(v@)),
        forall|i: int| 0 <= i < escape(v@).len() ==> #[trigger] escape(v@)[i] != '"',
        <String as DeXmlAttr>::attr_error(escape(v@)) is None,
        <String as DeXmlAttr>::attr_value(escape(v@), w) <==> w@ == v@,
{
    lemma_string_text(v@);
}

} // verus!
