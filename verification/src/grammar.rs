//! The token grammar, as functions on the bytes of a source.
//!
//! A source is a sequence of UTF-8 bytes and a position in it is a byte
//! offset. The tokenizer's whole state between two calls is a [`Cursor`];
//! [`next_token`] says which token the grammar finds at a cursor and where it
//! leaves the cursor. The expectations that a traversal places on the next
//! token ([`open_start`], [`close`], [`text_then_close`], ...) are defined on
//! top of it.

use vstd::prelude::*;
use crate::de::XmlError;
use crate::text::text_of;

verus! {

/// The tokenizer's state: where it stands in the source, whether it is
/// between a tag's name and the end of that tag, and whether it owes the
/// closing token of a self-closed tag.
pub struct Cursor {
    pub pos: int,
    pub in_tag: bool,
    pub pending_close: bool,
}

/// A token, by the characters it carries.
pub enum TokenView {
    /// `<name`
    TagOpenStart(Seq<char>),
    /// `>`, or the `/>` of a self-closed tag
    TagOpenEnd,
    /// `</name>`, or, with an empty name, the close that `/>` stands for
    TagClose(Seq<char>),
    /// `key="value"`, the value as written
    Attribute(Seq<char>, Seq<char>),
    /// Character data up to the next `<`, as written
    Text(Seq<char>),
}

/// The cursor at the start of a document.
pub open spec fn start() -> Cursor {
    Cursor { pos: 0, in_tag: false, pending_close: false }
}

/// ASCII whitespace: space, tab, line feed, form feed, carriage return.
pub open spec fn is_space(b: u8) -> bool {
    b == 0x20 || b == 0x09 || b == 0x0a || b == 0x0c || b == 0x0d
}

/// The bytes a name is made of: ASCII letters and digits, `_`, `-`, `:`.
pub open spec fn is_name_byte(b: u8) -> bool {
    (0x41 <= b <= 0x5a) || (0x61 <= b <= 0x7a) || (0x30 <= b <= 0x39) || b == 0x5f || b == 0x2d
        || b == 0x3a
}

/// The first offset at or after `from` that holds no whitespace.
pub open spec fn skip_spaces(src: Seq<u8>, from: int) -> int
    decreases src.len() - from,
{
    if 0 <= from < src.len() && is_space(src[from]) {
        skip_spaces(src, from + 1)
    } else {
        from
    }
}

/// The first offset at or after `from` that holds no name byte.
pub open spec fn name_end(src: Seq<u8>, from: int) -> int
    decreases src.len() - from,
{
    if 0 <= from < src.len() && is_name_byte(src[from]) {
        name_end(src, from + 1)
    } else {
        from
    }
}

/// The first offset at or after `from` that holds `b`; the length of the
/// source if there is none.
pub open spec fn find_byte(src: Seq<u8>, from: int, b: u8) -> int
    decreases src.len() - from,
{
    if 0 <= from < src.len() && src[from] != b {
        find_byte(src, from + 1, b)
    } else {
        from
    }
}

/// Requires the byte `b` at `at`: the offset behind it, or why it is not there.
pub open spec fn expect_byte(src: Seq<u8>, at: int, b: u8) -> Result<int, XmlError> {
    if at >= src.len() {
        Err(XmlError::UnexpectedEof)
    } else if src[at] != b {
        Err(XmlError::UnexpectedChar)
    } else {
        Ok(at + 1)
    }
}

/// The token that starts with the `<` at `p`.
pub open spec fn tag_token(src: Seq<u8>, c: Cursor, p: int) -> Result<
    (Option<TokenView>, Cursor),
    XmlError,
> {
    let closing = p + 1 < src.len() && src[p + 1] == 0x2f;
    let start = if closing {
        p + 2
    } else {
        p + 1
    };
    let end = name_end(src, start);
    if end == start {
        Err(XmlError::InvalidIdentifier)
    } else if closing {
        match expect_byte(src, end, 0x3e) {
            Ok(after) => Ok(
                (Some(TokenView::TagClose(text_of(src, start, end))), Cursor { pos: after, ..c }),
            ),
            Err(e) => Err(e),
        }
    } else {
        Ok(
            (
                Some(TokenView::TagOpenStart(text_of(src, start, end))),
                Cursor { pos: end, in_tag: true, ..c },
            ),
        )
    }
}

/// The self-close whose `/` stands at `p`: the `>` must follow at once. It
/// ends the opening tag, as `>` does, and leaves the element's close pending.
pub open spec fn self_close_token(src: Seq<u8>, c: Cursor, p: int) -> Result<
    (Option<TokenView>, Cursor),
    XmlError,
> {
    match expect_byte(src, p + 1, 0x3e) {
        Ok(after) => Ok(
            (
                Some(TokenView::TagOpenEnd),
                Cursor { pos: after, in_tag: false, pending_close: true },
            ),
        ),
        Err(e) => Err(e),
    }
}

/// The attribute whose key starts at `p`: a name, `=`, and a value between
/// double quotes that ends at the first `"`.
pub open spec fn attribute_token(src: Seq<u8>, c: Cursor, p: int) -> Result<
    (Option<TokenView>, Cursor),
    XmlError,
> {
    let key_end = name_end(src, p);
    if key_end == p {
        Err(XmlError::InvalidIdentifier)
    } else {
        match expect_byte(src, key_end, 0x3d) {
            Err(e) => Err(e),
            Ok(quote) => match expect_byte(src, quote, 0x22) {
                Err(e) => Err(e),
                Ok(start) => {
                    let end = find_byte(src, start, 0x22);
                    if end >= src.len() {
                        Err(XmlError::UnexpectedEof)
                    } else {
                        Ok(
                            (
                                Some(
                                    TokenView::Attribute(
                                        text_of(src, p, key_end),
                                        text_of(src, start, end),
                                    ),
                                ),
                                Cursor { pos: end + 1, ..c },
                            ),
                        )
                    }
                },
            },
        }
    }
}

/// The text that starts at `p` and runs up to the next `<`, which must exist.
pub open spec fn text_token(src: Seq<u8>, c: Cursor, p: int) -> Result<
    (Option<TokenView>, Cursor),
    XmlError,
> {
    let end = find_byte(src, p, 0x3c);
    if end >= src.len() {
        Err(XmlError::UnexpectedEof)
    } else {
        Ok((Some(TokenView::Text(text_of(src, p, end))), Cursor { pos: end, ..c }))
    }
}

/// The next token at cursor `c` and the cursor behind it; `None` for the
/// token where only whitespace is left.
///
/// A pending close is delivered first, as a close with an empty name.
/// Otherwise whitespace is skipped and the next byte decides: `<` starts a
/// tag, `>` ends an opening tag, and inside a tag `/` self-closes it and
/// anything else starts an attribute; outside a tag anything else starts text.
pub open spec fn next_token(src: Seq<u8>, c: Cursor) -> Result<(Option<TokenView>, Cursor), XmlError> {
    if c.pending_close {
        Ok((Some(TokenView::TagClose(Seq::empty())), Cursor { pending_close: false, ..c }))
    } else {
        let p = skip_spaces(src, c.pos);
        if p >= src.len() {
            Ok((None, Cursor { pos: p, ..c }))
        } else if src[p] == 0x3c {
            tag_token(src, c, p)
        } else if src[p] == 0x3e {
            Ok((Some(TokenView::TagOpenEnd), Cursor { pos: p + 1, in_tag: false, ..c }))
        } else if c.in_tag && src[p] == 0x2f {
            self_close_token(src, c, p)
        } else if c.in_tag {
            attribute_token(src, c, p)
        } else {
            text_token(src, c, p)
        }
    }
}

/// The next token where one is required: the end of input is an error.
pub open spec fn required_token(src: Seq<u8>, c: Cursor) -> Result<(TokenView, Cursor), XmlError> {
    match next_token(src, c) {
        Err(e) => Err(e),
        Ok((None, _)) => Err(XmlError::UnexpectedEof),
        Ok((Some(t), after)) => Ok((t, after)),
    }
}

/// Whether a closing tag named `actual` closes an element whose close is
/// expected under the name `expect`. An empty name on either side matches
/// anything: the close that `/>` stands for has no name, and a caller that
/// passes no name accepts every close.
pub open spec fn close_matches(actual: Seq<char>, expect: Seq<char>) -> bool {
    actual == expect || actual.len() == 0 || expect.len() == 0
}

/// What a token is worth where the close of `expect` is required.
pub open spec fn as_close(t: TokenView, expect: Seq<char>) -> Result<(), XmlError> {
    match t {
        TokenView::TagClose(name) => if close_matches(name, expect) {
            Ok(())
        } else {
            Err(XmlError::NameMismatch)
        },
        _ => Err(XmlError::UnexpectedToken),
    }
}

/// Requires `<expect` next.
pub open spec fn open_start(src: Seq<u8>, c: Cursor, expect: Seq<char>) -> Result<Cursor, XmlError> {
    match required_token(src, c) {
        Err(e) => Err(e),
        Ok((TokenView::TagOpenStart(name), after)) => if name == expect {
            Ok(after)
        } else {
            Err(XmlError::NameMismatch)
        },
        Ok(_) => Err(XmlError::UnexpectedToken),
    }
}

/// Requires the end of an opening tag next.
pub open spec fn open_end(src: Seq<u8>, c: Cursor) -> Result<Cursor, XmlError> {
    match required_token(src, c) {
        Err(e) => Err(e),
        Ok((TokenView::TagOpenEnd, after)) => Ok(after),
        Ok(_) => Err(XmlError::UnexpectedToken),
    }
}

/// Requires a closing tag next that matches `expect`.
pub open spec fn close(src: Seq<u8>, c: Cursor, expect: Seq<char>) -> Result<Cursor, XmlError> {
    match required_token(src, c) {
        Err(e) => Err(e),
        Ok((t, after)) => match as_close(t, expect) {
            Ok(()) => Ok(after),
            Err(e) => Err(e),
        },
    }
}

/// Requires text next.
pub open spec fn text(src: Seq<u8>, c: Cursor) -> Result<(Seq<char>, Cursor), XmlError> {
    match required_token(src, c) {
        Err(e) => Err(e),
        Ok((TokenView::Text(raw), after)) => Ok((raw, after)),
        Ok(_) => Err(XmlError::UnexpectedToken),
    }
}

/// Requires an attribute next.
pub open spec fn attribute(src: Seq<u8>, c: Cursor) -> Result<
    ((Seq<char>, Seq<char>), Cursor),
    XmlError,
> {
    match required_token(src, c) {
        Err(e) => Err(e),
        Ok((TokenView::Attribute(key, raw), after)) => Ok(((key, raw), after)),
        Ok(_) => Err(XmlError::UnexpectedToken),
    }
}

/// Inside an opening tag: the next attribute, or `None` at the end of the tag.
pub open spec fn attribute_or_open_end(src: Seq<u8>, c: Cursor) -> Result<
    (Option<(Seq<char>, Seq<char>)>, Cursor),
    XmlError,
> {
    match required_token(src, c) {
        Err(e) => Err(e),
        Ok((TokenView::Attribute(key, raw), after)) => Ok((Some((key, raw)), after)),
        Ok((TokenView::TagOpenEnd, after)) => Ok((None, after)),
        Ok(_) => Err(XmlError::UnexpectedToken),
    }
}

/// Among an element's children: the name of the next child, or `None` at the
/// close of the element, which must match `expect`.
pub open spec fn child_or_close(src: Seq<u8>, c: Cursor, expect: Seq<char>) -> Result<
    (Option<Seq<char>>, Cursor),
    XmlError,
> {
    match required_token(src, c) {
        Err(e) => Err(e),
        Ok((TokenView::TagOpenStart(name), after)) => Ok((Some(name), after)),
        Ok((t, after)) => match as_close(t, expect) {
            Ok(()) => Ok((None, after)),
            Err(e) => Err(e),
        },
    }
}

/// The body of a leaf: one text token or none, then the close of the
/// element, which must match `expect`. An element without text has the empty
/// text.
pub open spec fn text_then_close(src: Seq<u8>, c: Cursor, expect: Seq<char>) -> Result<
    (Seq<char>, Cursor),
    XmlError,
> {
    match required_token(src, c) {
        Err(e) => Err(e),
        Ok((TokenView::Text(raw), after)) => match close(src, after, expect) {
            Ok(end) => Ok((raw, end)),
            Err(e) => Err(e),
        },
        Ok((t, after)) => match as_close(t, expect) {
            Ok(()) => Ok((Seq::empty(), after)),
            Err(e) => Err(e),
        },
    }
}

/// The element of a leaf, read from behind its name: the end of the opening
/// tag, one text or none, and a closing tag of any name. Returns the text as
/// written; an element without text, self-closed or not, has the empty text.
pub open spec fn leaf_element(src: Seq<u8>, c: Cursor) -> Result<(Seq<char>, Cursor), XmlError> {
    match open_end(src, c) {
        Err(e) => Err(e),
        Ok(inside) => text_then_close(src, inside, Seq::empty()),
    }
}

/// Whether the document ends at `c`: no close is pending and only whitespace
/// is left.
pub open spec fn at_end(src: Seq<u8>, c: Cursor) -> bool {
    !c.pending_close && skip_spaces(src, c.pos) >= src.len()
}

/// Whether the source starts with the five bytes `<?xml`.
pub open spec fn has_declaration(src: Seq<u8>) -> bool {
    src.len() >= 5 && src[0] == 0x3c && src[1] == 0x3f && src[2] == 0x78 && src[3] == 0x6d && src[4]
        == 0x6c
}

/// Where the document starts: at 0 without a declaration; otherwise behind
/// the declaration, which ends at its first `?` and must end in `?>`.
pub open spec fn document_start(src: Seq<u8>) -> Result<int, XmlError> {
    if !has_declaration(src) {
        Ok(0)
    } else {
        let mark = find_byte(src, 5, 0x3f);
        if mark >= src.len() {
            Err(XmlError::UnexpectedEof)
        } else {
            expect_byte(src, mark + 1, 0x3e)
        }
    }
}

/// What `find_byte` finds: an offset that holds `b`, or the length of the
/// source, with no `b` before it.
pub proof fn lemma_find_byte(src: Seq<u8>, from: int, b: u8)
    requires
        0 <= from <= src.len(),
    ensures
        from <= find_byte(src, from, b) <= src.len(),
        find_byte(src, from, b) < src.len() ==> src[find_byte(src, from, b)] == b,
        forall|i: int| from <= i < find_byte(src, from, b) ==> src[i] != b,
    decreases src.len() - from,
{
    if from < src.len() && src[from] != b {
        lemma_find_byte(src, from + 1, b);
    }
}

/// What `skip_spaces` skips: whitespace only, up to a byte that is none or
/// to the end of the source.
pub proof fn lemma_skip_spaces(src: Seq<u8>, from: int)
    requires
        0 <= from <= src.len(),
    ensures
        from <= skip_spaces(src, from) <= src.len(),
        skip_spaces(src, from) < src.len() ==> !is_space(src[skip_spaces(src, from)]),
        forall|i: int| from <= i < skip_spaces(src, from) ==> is_space(src[i]),
    decreases src.len() - from,
{
    if from < src.len() && is_space(src[from]) {
        lemma_skip_spaces(src, from + 1);
    }
}

/// What `name_end` passes: name bytes only, up to a byte that is none or to
/// the end of the source.
pub proof fn lemma_name_end(src: Seq<u8>, from: int)
    requires
        0 <= from <= src.len(),
    ensures
        from <= name_end(src, from) <= src.len(),
        name_end(src, from) < src.len() ==> !is_name_byte(src[name_end(src, from)]),
        forall|i: int| from <= i < name_end(src, from) ==> is_name_byte(src[i]),
    decreases src.len() - from,
{
    if from < src.len() && is_name_byte(src[from]) {
        lemma_name_end(src, from + 1);
    }
}

/// `find_byte` finds `to` if `to` holds `b`, or is the end of the source,
/// and no offset from `from` up to it holds `b`.
pub proof fn lemma_find_byte_is(src: Seq<u8>, from: int, to: int, b: u8)
    requires
        0 <= from <= to <= src.len(),
        forall|i: int| from <= i < to ==> src[i] != b,
        to < src.len() ==> src[to] == b,
    ensures
        find_byte(src, from, b) == to,
    decreases to - from,
{
    if from < to {
        lemma_find_byte_is(src, from + 1, to, b);
    }
}

/// `skip_spaces` stops at `to` if `to` holds no whitespace, or is the end of
/// the source, and every offset from `from` up to it holds whitespace.
pub proof fn lemma_skip_spaces_is(src: Seq<u8>, from: int, to: int)
    requires
        0 <= from <= to <= src.len(),
        forall|i: int| from <= i < to ==> is_space(src[i]),
        to < src.len() ==> !is_space(src[to]),
    ensures
        skip_spaces(src, from) == to,
    decreases to - from,
{
    if from < to {
        lemma_skip_spaces_is(src, from + 1, to);
    }
}

/// `name_end` stops at `to` if `to` holds no name byte, or is the end of the
/// source, and every offset from `from` up to it holds a name byte.
pub proof fn lemma_name_end_is(src: Seq<u8>, from: int, to: int)
    requires
        0 <= from <= to <= src.len(),
        forall|i: int| from <= i < to ==> is_name_byte(src[i]),
        to < src.len() ==> !is_name_byte(src[to]),
    ensures
        name_end(src, from) == to,
    decreases to - from,
{
    if from < to {
        lemma_name_end_is(src, from + 1, to);
    }
}

/// At a `<` that is followed by a name, the next token is the start of an
/// opening tag with that name.
pub proof fn lemma_token_open_start(src: Seq<u8>, c: Cursor, end: int)
    requires
        !c.pending_close,
        0 <= c.pos,
        c.pos + 1 < end <= src.len(),
        src[c.pos] == 0x3c,
        forall|i: int| c.pos + 1 <= i < end ==> is_name_byte(src[i]),
        end < src.len() ==> !is_name_byte(src[end]),
    ensures
        next_token(src, c) == Ok::<(Option<TokenView>, Cursor), XmlError>(
            (
                Some(TokenView::TagOpenStart(text_of(src, c.pos + 1, end))),
                Cursor { pos: end, in_tag: true, ..c },
            ),
        ),
{
    assert(is_name_byte(src[c.pos + 1]));
    lemma_name_end_is(src, c.pos + 1, end);
    assert(skip_spaces(src, c.pos) == c.pos);
}

/// At a `>`, the next token is the end of an opening tag.
pub proof fn lemma_token_open_end(src: Seq<u8>, c: Cursor)
    requires
        !c.pending_close,
        0 <= c.pos < src.len(),
        src[c.pos] == 0x3e,
    ensures
        next_token(src, c) == Ok::<(Option<TokenView>, Cursor), XmlError>(
            (Some(TokenView::TagOpenEnd), Cursor { pos: c.pos + 1, in_tag: false, ..c }),
        ),
{
    assert(skip_spaces(src, c.pos) == c.pos);
}

/// Outside a tag, at a byte that is neither whitespace nor `<` nor `>`, the
/// next token is the text up to the next `<`.
pub proof fn lemma_token_text(src: Seq<u8>, c: Cursor, end: int)
    requires
        !c.pending_close,
        !c.in_tag,
        0 <= c.pos < end < src.len(),
        !is_space(src[c.pos]),
        src[c.pos] != 0x3e,
        forall|i: int| c.pos <= i < end ==> src[i] != 0x3c,
        src[end] == 0x3c,
    ensures
        next_token(src, c) == Ok::<(Option<TokenView>, Cursor), XmlError>(
            (Some(TokenView::Text(text_of(src, c.pos, end))), Cursor { pos: end, ..c }),
        ),
{
    assert(skip_spaces(src, c.pos) == c.pos);
    lemma_find_byte_is(src, c.pos, end, 0x3c);
}

/// At `</`, a name and `>`, the next token is the closing tag with that name.
pub proof fn lemma_token_close(src: Seq<u8>, c: Cursor, end: int)
    requires
        !c.pending_close,
        0 <= c.pos,
        c.pos + 2 < end < src.len(),
        src[c.pos] == 0x3c,
        src[c.pos + 1] == 0x2f,
        forall|i: int| c.pos + 2 <= i < end ==> is_name_byte(src[i]),
        src[end] == 0x3e,
    ensures
        next_token(src, c) == Ok::<(Option<TokenView>, Cursor), XmlError>(
            (
                Some(TokenView::TagClose(text_of(src, c.pos + 2, end))),
                Cursor { pos: end + 1, ..c },
            ),
        ),
{
    assert(skip_spaces(src, c.pos) == c.pos);
    lemma_name_end_is(src, c.pos + 2, end);
}

/// Inside a tag, at whitespace followed by a key, `="`, a value without `"`
/// and `"`, the next token is the attribute with that key and that value.
pub proof fn lemma_token_attribute(src: Seq<u8>, c: Cursor, key: int, key_end: int, end: int)
    requires
        c.in_tag,
        !c.pending_close,
        0 <= c.pos <= key < key_end,
        key_end + 2 <= end < src.len(),
        forall|i: int| c.pos <= i < key ==> is_space(src[i]),
        forall|i: int| key <= i < key_end ==> is_name_byte(src[i]),
        src[key_end] == 0x3d,
        src[key_end + 1] == 0x22,
        forall|i: int| key_end + 2 <= i < end ==> src[i] != 0x22,
        src[end] == 0x22,
    ensures
        next_token(src, c) == Ok::<(Option<TokenView>, Cursor), XmlError>(
            (
                Some(
                    TokenView::Attribute(
                        text_of(src, key, key_end),
                        text_of(src, key_end + 2, end),
                    ),
                ),
                Cursor { pos: end + 1, ..c },
            ),
        ),
{
    assert(is_name_byte(src[key]));
    lemma_skip_spaces_is(src, c.pos, key);
    lemma_name_end_is(src, key, key_end);
    lemma_find_byte_is(src, key_end + 2, end, 0x22);
    assert(next_token(src, c) == attribute_token(src, c, key));
}

/// A self-closed element and an empty one are read alike. Inside an opening
/// tag, `/>` in one source and `></name>` in another give the same: the
/// opening tag ends, its close matches whatever name `name` matches, the
/// element reads as a leaf with empty text, and the tokenizer stands behind
/// the element, outside any tag and with no close pending. The two states
/// differ in nothing but the position, which in each source is the offset
/// behind the element.
pub proof fn lemma_self_close_equivalence(
    a: Seq<u8>,
    b: Seq<u8>,
    c: Cursor,
    name_end: int,
    expect: Seq<char>,
)
    requires
        c.in_tag,
        !c.pending_close,
        0 <= c.pos,
        c.pos + 1 < a.len(),
        a[c.pos] == 0x2f,
        a[c.pos + 1] == 0x3e,
        c.pos + 3 < name_end < b.len(),
        b[c.pos] == 0x3e,
        b[c.pos + 1] == 0x3c,
        b[c.pos + 2] == 0x2f,
        forall|i: int| c.pos + 3 <= i < name_end ==> is_name_byte(b[i]),
        b[name_end] == 0x3e,
        close_matches(text_of(b, c.pos + 3, name_end), expect),
    ensures
        ({
            let a1 = Cursor { pos: c.pos + 2, in_tag: false, pending_close: true };
            let a2 = Cursor { pos: c.pos + 2, in_tag: false, pending_close: false };
            let b1 = Cursor { pos: c.pos + 1, in_tag: false, pending_close: false };
            let b2 = Cursor { pos: name_end + 1, in_tag: false, pending_close: false };
            &&& open_end(a, c) == Ok::<Cursor, XmlError>(a1)
            &&& open_end(b, c) == Ok::<Cursor, XmlError>(b1)
            &&& close(a, a1, expect) == Ok::<Cursor, XmlError>(a2)
            &&& close(b, b1, expect) == Ok::<Cursor, XmlError>(b2)
            &&& text_then_close(a, a1, expect) == Ok::<(Seq<char>, Cursor), XmlError>(
                (Seq::empty(), a2),
            )
            &&& text_then_close(b, b1, expect) == Ok::<(Seq<char>, Cursor), XmlError>(
                (Seq::empty(), b2),
            )
            &&& leaf_element(a, c) == Ok::<(Seq<char>, Cursor), XmlError>((Seq::empty(), a2))
            &&& leaf_element(b, c) == Ok::<(Seq<char>, Cursor), XmlError>((Seq::empty(), b2))
            &&& a2 == Cursor { pos: a2.pos, ..b2 }
        }),
{
    let a1 = Cursor { pos: c.pos + 2, in_tag: false, pending_close: true };
    let b1 = Cursor { pos: c.pos + 1, in_tag: false, pending_close: false };
    assert(skip_spaces(a, c.pos) == c.pos);
    assert(next_token(a, c) == self_close_token(a, c, c.pos));
    lemma_token_open_end(b, c);
    lemma_token_close(b, b1, name_end);
    assert(close_matches(Seq::<char>::empty(), expect));
    assert(close_matches(Seq::<char>::empty(), Seq::<char>::empty()));
    assert(close_matches(text_of(b, c.pos + 3, name_end), Seq::<char>::empty()));
}

/// Whether what is left of `a` from `pa` on is what is left of `b` from
/// `pb` on.
pub open spec fn same_rest(a: Seq<u8>, pa: int, b: Seq<u8>, pb: int) -> bool {
    &&& 0 <= pa <= a.len()
    &&& 0 <= pb <= b.len()
    &&& a.subrange(pa, a.len() as int) == b.subrange(pb, b.len() as int)
}

/// Two sources with the same rest hold the same bytes in it, and have the
/// same rest further on.
proof fn lemma_same_rest(a: Seq<u8>, pa: int, b: Seq<u8>, pb: int, k: int)
    requires
        same_rest(a, pa, b, pb),
        0 <= k <= a.len() - pa,
    ensures
        a.len() - pa == b.len() - pb,
        same_rest(a, pa + k, b, pb + k),
        k < a.len() - pa ==> a[pa + k] == b[pb + k],
{
    let ra = a.subrange(pa, a.len() as int);
    let rb = b.subrange(pb, b.len() as int);
    assert(ra.len() == rb.len());
    assert(a.subrange(pa + k, a.len() as int) =~= ra.subrange(k, ra.len() as int));
    assert(b.subrange(pb + k, b.len() as int) =~= rb.subrange(k, rb.len() as int));
    if k < a.len() - pa {
        assert(a[pa + k] == ra[k]);
        assert(b[pb + k] == rb[k]);
    }
}

/// Two sources with the same rest hold the same text in it.
proof fn lemma_text_same(a: Seq<u8>, pa: int, b: Seq<u8>, pb: int, x: int, y: int)
    requires
        same_rest(a, pa, b, pb),
        0 <= x <= y <= a.len() - pa,
    ensures
        text_of(a, pa + x, pa + y) == text_of(b, pb + x, pb + y),
{
    let ra = a.subrange(pa, a.len() as int);
    let rb = b.subrange(pb, b.len() as int);
    assert(ra.len() == rb.len());
    assert(a.subrange(pa + x, pa + y) =~= ra.subrange(x, y));
    assert(b.subrange(pb + x, pb + y) =~= rb.subrange(x, y));
}

/// Whitespace is skipped alike in two sources with the same rest.
proof fn lemma_skip_spaces_same(a: Seq<u8>, pa: int, b: Seq<u8>, pb: int)
    requires
        same_rest(a, pa, b, pb),
    ensures
        skip_spaces(a, pa) - pa == skip_spaces(b, pb) - pb,
        pa <= skip_spaces(a, pa) <= a.len(),
    decreases a.len() - pa,
{
    lemma_same_rest(a, pa, b, pb, 0);
    if pa < a.len() && is_space(a[pa]) {
        lemma_same_rest(a, pa, b, pb, 1);
        lemma_skip_spaces_same(a, pa + 1, b, pb + 1);
    }
}

/// A name ends alike in two sources with the same rest.
proof fn lemma_name_end_same(a: Seq<u8>, pa: int, b: Seq<u8>, pb: int)
    requires
        same_rest(a, pa, b, pb),
    ensures
        name_end(a, pa) - pa == name_end(b, pb) - pb,
        pa <= name_end(a, pa) <= a.len(),
    decreases a.len() - pa,
{
    lemma_same_rest(a, pa, b, pb, 0);
    if pa < a.len() && is_name_byte(a[pa]) {
        lemma_same_rest(a, pa, b, pb, 1);
        lemma_name_end_same(a, pa + 1, b, pb + 1);
    }
}

/// A byte is found alike in two sources with the same rest.
proof fn lemma_find_byte_same(a: Seq<u8>, pa: int, b: Seq<u8>, pb: int, x: u8)
    requires
        same_rest(a, pa, b, pb),
    ensures
        find_byte(a, pa, x) - pa == find_byte(b, pb, x) - pb,
        pa <= find_byte(a, pa, x) <= a.len(),
    decreases a.len() - pa,
{
    lemma_same_rest(a, pa, b, pb, 0);
    if pa < a.len() && a[pa] != x {
        lemma_same_rest(a, pa, b, pb, 1);
        lemma_find_byte_same(a, pa + 1, b, pb + 1, x);
    }
}

/// Whether two cursors differ in nothing but the position.
pub open spec fn same_flags(ca: Cursor, cb: Cursor) -> bool {
    ca.in_tag == cb.in_tag && ca.pending_close == cb.pending_close
}

/// Whether two outcomes of reading a token, one from `a` at `ca` and one from
/// `b` at `cb`, are alike: the same token, the same flags behind it and the
/// same rest, reached by moving on by the same number of bytes; or the same
/// failure.
pub open spec fn alike(
    ra: Result<(Option<TokenView>, Cursor), XmlError>,
    rb: Result<(Option<TokenView>, Cursor), XmlError>,
    a: Seq<u8>,
    ca: Cursor,
    b: Seq<u8>,
    cb: Cursor,
) -> bool {
    match (ra, rb) {
        (Ok((ta, na)), Ok((tb, nb))) => ta == tb && same_flags(na, nb) && na.pos - ca.pos == nb.pos
            - cb.pos && same_rest(a, na.pos, b, nb.pos),
        (Err(ea), Err(eb)) => ea == eb,
        _ => false,
    }
}

/// The next token depends on the flags and on the rest of the source, and
/// on nothing else. Two tokenizers with the same flags, over sources with
/// the same rest, find the same token or fail alike, move on by the same
/// number of bytes, and have the same flags again. So the same holds of every
/// token that follows: states that differ in the position only, over the
/// same rest, cannot be told apart.
pub proof fn lemma_next_token_same(a: Seq<u8>, ca: Cursor, b: Seq<u8>, cb: Cursor)
    requires
        same_flags(ca, cb),
        same_rest(a, ca.pos, b, cb.pos),
    ensures
        alike(next_token(a, ca), next_token(b, cb), a, ca, b, cb),
{
    let pa = ca.pos;
    let pb = cb.pos;
    lemma_same_rest(a, pa, b, pb, 0);
    if !ca.pending_close {
        lemma_skip_spaces_same(a, pa, b, pb);
        let qa = skip_spaces(a, pa);
        let qb = skip_spaces(b, pb);
        let d = qa - pa;
        lemma_same_rest(a, pa, b, pb, d);
        let left = a.len() - qa;
        if left > 0 {
            lemma_same_rest(a, qa, b, qb, 0);
            lemma_same_rest(a, qa, b, qb, 1);
            if a[qa] == 0x3c {
                if left > 1 {
                    lemma_same_rest(a, qa, b, qb, 2);
                    lemma_name_end_same(a, qa + 2, b, qb + 2);
                    let e2 = name_end(a, qa + 2) - qa;
                    lemma_same_rest(a, qa, b, qb, e2);
                    lemma_text_same(a, qa, b, qb, 2, e2);
                    if e2 < left {
                        lemma_same_rest(a, qa, b, qb, e2 + 1);
                    }
                }
                lemma_name_end_same(a, qa + 1, b, qb + 1);
                let e1 = name_end(a, qa + 1) - qa;
                lemma_same_rest(a, qa, b, qb, e1);
                lemma_text_same(a, qa, b, qb, 1, e1);
                assert(alike(tag_token(a, ca, qa), tag_token(b, cb, qb), a, ca, b, cb));
            } else if a[qa] == 0x3e {
                assert(alike(next_token(a, ca), next_token(b, cb), a, ca, b, cb));
            } else if ca.in_tag && a[qa] == 0x2f {
                if left > 1 {
                    lemma_same_rest(a, qa, b, qb, 2);
                }
                assert(alike(
                    self_close_token(a, ca, qa),
                    self_close_token(b, cb, qb),
                    a,
                    ca,
                    b,
                    cb,
                ));
            } else if ca.in_tag {
                lemma_name_end_same(a, qa, b, qb);
                let k = name_end(a, qa) - qa;
                lemma_same_rest(a, qa, b, qb, k);
                lemma_text_same(a, qa, b, qb, 0, k);
                if k + 1 < left {
                    lemma_same_rest(a, qa, b, qb, k + 1);
                    lemma_same_rest(a, qa, b, qb, k + 2);
                    lemma_find_byte_same(a, qa + k + 2, b, qb + k + 2, 0x22);
                    let v = find_byte(a, qa + k + 2, 0x22) - qa;
                    lemma_text_same(a, qa, b, qb, k + 2, v);
                    if v < left {
                        lemma_same_rest(a, qa, b, qb, v + 1);
                    }
                }
                assert(alike(
                    attribute_token(a, ca, qa),
                    attribute_token(b, cb, qb),
                    a,
                    ca,
                    b,
                    cb,
                ));
            } else {
                lemma_find_byte_same(a, qa, b, qb, 0x3c);
                let t = find_byte(a, qa, 0x3c) - qa;
                lemma_same_rest(a, qa, b, qb, t);
                lemma_text_same(a, qa, b, qb, 0, t);
                assert(alike(text_token(a, ca, qa), text_token(b, cb, qb), a, ca, b, cb));
            }
        } else {
            assert(alike(next_token(a, ca), next_token(b, cb), a, ca, b, cb));
        }
    } else {
        assert(alike(next_token(a, ca), next_token(b, cb), a, ca, b, cb));
    }
}

/// Behind a self-closed element and behind an empty one the same is read.
/// Where `/>` in one source and `></name>` in another are followed by the
/// same bytes, the token that follows the element is the same in both, or
/// fails alike in both, and leaves the two tokenizers alike again.
pub proof fn lemma_self_close_same_future(a: Seq<u8>, b: Seq<u8>, c: Cursor, name_end: int)
    requires
        same_rest(a, c.pos + 2, b, name_end + 1),
    ensures
        ({
            let behind_a = Cursor { pos: c.pos + 2, in_tag: false, pending_close: false };
            let behind_b = Cursor { pos: name_end + 1, in_tag: false, pending_close: false };
            alike(next_token(a, behind_a), next_token(b, behind_b), a, behind_a, b, behind_b)
        }),
{
    let behind_a = Cursor { pos: c.pos + 2, in_tag: false, pending_close: false };
    let behind_b = Cursor { pos: name_end + 1, in_tag: false, pending_close: false };
    lemma_next_token_same(a, behind_a, b, behind_b);
}

} // verus!
