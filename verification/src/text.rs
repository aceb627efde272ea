//! UTF-8 facts and string helpers shared by the tokenizer and the decoder.
//!
//! A `&str` is modelled twice: by its characters (`s@`) and by its bytes
//! (`s.spec_bytes()`, the UTF-8 encoding of `s@`). Cursors are byte offsets;
//! everything cut out of a source is cut at character boundaries.

use vstd::prelude::*;
use vstd::string::*;
use vstd::utf8::*;

verus! {

/// The characters held by the bytes `src[from..to]`.
pub open spec fn text_of(src: Seq<u8>, from: int, to: int) -> Seq<char> {
    decode_utf8(src.subrange(from, to))
}

/// An ASCII byte at a character boundary is a whole character: the next
/// offset is a boundary too.
pub proof fn lemma_boundary_after_ascii(bytes: Seq<u8>, n: int)
    requires
        valid_utf8(bytes),
        0 <= n < bytes.len(),
        is_char_boundary(bytes, n),
        bytes[n] < 0x80,
    ensures
        is_char_boundary(bytes, n + 1),
{
    let tail = bytes.subrange(n, bytes.len() as int);
    valid_utf8_split(bytes, n);
    assert(tail[0] == bytes[n]);
    assert(valid_utf8(tail));
    assert(valid_first_scalar(tail));
    assert(length_of_first_scalar(tail) == 1);
    let rest = pop_first_scalar(tail);
    assert(valid_utf8(rest));
    if n + 1 < bytes.len() {
        assert(rest.len() > 0);
        assert(rest[0] == bytes[n + 1]);
        assert(valid_first_scalar(rest));
        is_char_boundary_iff_not_is_continuation_byte(bytes, n + 1);
    } else {
        is_char_boundary_start_end_of_seq(bytes);
    }
}

/// Every ASCII byte of valid UTF-8 starts a character.
pub proof fn lemma_ascii_is_boundary(bytes: Seq<u8>, i: int)
    requires
        valid_utf8(bytes),
        0 <= i < bytes.len(),
        bytes[i] < 0x80,
    ensures
        is_char_boundary(bytes, i),
{
    is_char_boundary_iff_not_is_continuation_byte(bytes, i);
}

/// The bytes of a string are valid UTF-8, and decoding them gives its
/// characters back.
pub proof fn lemma_str_bytes(s: &str)
    ensures
        valid_utf8(s.spec_bytes()),
        decode_utf8(s.spec_bytes()) == s@,
        is_char_boundary(s.spec_bytes(), 0),
        is_char_boundary(s.spec_bytes(), s.spec_bytes().len() as int),
{
    encode_utf8_valid_utf8(s@);
    encode_utf8_decode_utf8(s@);
    is_char_boundary_start_end_of_seq(s.spec_bytes());
}

/// Strings with the same bytes hold the same characters.
pub proof fn lemma_same_bytes_same_text(a: Seq<char>, b: Seq<char>)
    requires
        encode_utf8(a) == encode_utf8(b),
    ensures
        a == b,
{
    encode_utf8_decode_utf8(a);
    encode_utf8_decode_utf8(b);
}

/// A boundary of the whole is a boundary of every prefix that reaches it.
pub proof fn lemma_boundary_in_prefix(bytes: Seq<u8>, a: int, b: int)
    requires
        valid_utf8(bytes),
        0 <= a <= b <= bytes.len(),
        is_char_boundary(bytes, a),
        is_char_boundary(bytes, b),
    ensures
        valid_utf8(bytes.subrange(0, b)),
        is_char_boundary(bytes.subrange(0, b), a),
{
    valid_utf8_split(bytes, b);
    let head = bytes.subrange(0, b);
    if a < b {
        is_char_boundary_iff_not_is_continuation_byte(bytes, a);
        assert(head[a] == bytes[a]);
        is_char_boundary_iff_not_is_continuation_byte(head, a);
    } else {
        is_char_boundary_start_end_of_seq(head);
    }
}

/// The part of `s` between two character boundaries, borrowed from `s`.
pub(crate) fn slice_of<'a>(s: &'a str, from: usize, to: usize) -> (r: &'a str)
    requires
        from <= to <= s.spec_bytes().len(),
        is_char_boundary(s.spec_bytes(), from as int),
        is_char_boundary(s.spec_bytes(), to as int),
    ensures
        r.spec_bytes() == s.spec_bytes().subrange(from as int, to as int),
        r@ == text_of(s.spec_bytes(), from as int, to as int),
{
    proof {
        lemma_str_bytes(s);
        lemma_boundary_in_prefix(s.spec_bytes(), from as int, to as int);
    }
    let (head, _) = s.split_at(to);
    let (_, r) = head.split_at(from);
    proof {
        assert(r.spec_bytes() =~= s.spec_bytes().subrange(from as int, to as int));
        lemma_str_bytes(r);
    }
    r
}

/// Whether two strings hold the same characters.
pub fn str_eq(a: &str, b: &str) -> (r: bool)
    ensures
        r == (a@ == b@),
{
    let x = a.as_bytes();
    let y = b.as_bytes();
    if x.len() != y.len() {
        return false;
    }
    let mut i: usize = 0;
    while i < x.len()
        invariant
            x@ == a.spec_bytes(),
            y@ == b.spec_bytes(),
            x@.len() == y@.len(),
            i <= x@.len(),
            forall|k: int| 0 <= k < i ==> x@[k] == y@[k],
        decreases x@.len() - i,
    {
        if x[i] != y[i] {
            return false;
        }
        i += 1;
    }
    proof {
        assert(x@ =~= y@);
        lemma_same_bytes_same_text(a@, b@);
    }
    true
}

/// Whether `c` is an ASCII character.
pub open spec fn is_ascii_char(c: char) -> bool {
    '\0' <= c <= '\u{7f}'
}

/// The encoding of a text starts with the encoding of its first character.
/// That character is ASCII exactly if the first byte is, and then the byte
/// is the character.
pub proof fn lemma_first_char(s: Seq<char>)
    requires
        s.len() > 0,
    ensures
        encode_utf8(s).len() > 0,
        (encode_utf8(s)[0] < 0x80) == is_ascii_char(s[0]),
        is_ascii_char(s[0]) ==> encode_utf8(s)[0] == s[0] as u8 && encode_utf8(s).subrange(
            1,
            encode_utf8(s).len() as int,
        ) == encode_utf8(s.drop_first()),
{
    let c = s[0] as u32;
    char_is_scalar(s[0]);
    char_u32_cast(s[0], c);
    assert(is_ascii_char(s[0]) == (c <= 0x7F));
    let head = encode_scalar(c);
    let tail = encode_utf8(s.drop_first());
    assert(encode_utf8(s) == head + tail);
    if has_width_1_encoding(c) {
        assert((c & 0x7F) as u8 == c as u8 && ((c & 0x7F) as u8) < 0x80) by (bit_vector)
            requires
                c <= 0x7F,
        ;
        assert(head.len() == 1);
        assert((head + tail)[0] == head[0]);
        assert(s[0] as u8 == c as u8);
        assert((head + tail).subrange(1, (head + tail).len() as int) =~= tail);
    } else {
        if has_width_2_encoding(c) {
            assert((0xC0 | ((c >> 6) & 0x1F) as u8) >= 0x80) by (bit_vector);
        } else if has_width_3_encoding(c) {
            assert((0xE0 | ((c >> 12) & 0x0F) as u8) >= 0x80) by (bit_vector);
        } else {
            assert((0xF0 | ((c >> 18) & 0x7) as u8) >= 0x80) by (bit_vector);
        }
        assert(head.len() >= 1);
        assert((head + tail)[0] == head[0]);
        assert(head[0] >= 0x80);
    }
}

/// An ASCII text is a prefix of a text exactly if its bytes are a prefix of
/// that text's bytes; it has one byte for each character.
pub proof fn lemma_ascii_prefix(s: Seq<char>, p: Seq<char>)
    requires
        is_ascii_chars(p),
    ensures
        p.is_prefix_of(s) <==> encode_utf8(p).is_prefix_of(encode_utf8(s)),
        encode_utf8(p).len() == p.len(),
        p.is_prefix_of(s) ==> encode_utf8(s).subrange(p.len() as int, encode_utf8(s).len() as int)
            == encode_utf8(s.skip(p.len() as int)),
    decreases p.len(),
{
    let bs = encode_utf8(s);
    let bp = encode_utf8(p);
    if p.len() == 0 {
        assert(bs.subrange(0, bs.len() as int) =~= bs);
        assert(s.skip(0) =~= s);
    } else {
        let tail_p = p.drop_first();
        assert(is_ascii_chars(tail_p)) by {
            assert forall|i: int| 0 <= i < tail_p.len() implies '\0' <= #[trigger] tail_p[i] <= '\u{7f}' by {
                assert(tail_p[i] == p[i + 1]);
            }
        }
        assert(is_ascii_char(p[0]));
        lemma_first_char(p);
        assert(bp.subrange(1, bp.len() as int) == encode_utf8(tail_p));
        if s.len() == 0 {
            lemma_ascii_prefix(s, tail_p);
            assert(bs.len() == 0);
        } else {
            let tail_s = s.drop_first();
            lemma_first_char(s);
            lemma_ascii_prefix(tail_s, tail_p);
            let tail_bytes_s = encode_utf8(tail_s);
            let tail_bytes_p = encode_utf8(tail_p);
            if p.is_prefix_of(s) {
                assert(s[0] == p[0]);
                assert(tail_p.is_prefix_of(tail_s)) by {
                    assert(tail_p =~= tail_s.subrange(0, tail_p.len() as int));
                }
                assert(bs.subrange(1, bs.len() as int) == tail_bytes_s);
                assert(bp =~= bs.subrange(0, bp.len() as int)) by {
                    assert forall|i: int| 0 <= i < bp.len() implies bp[i] == bs[i] by {
                        if i > 0 {
                            assert(bp[i] == bp.subrange(1, bp.len() as int)[i - 1]);
                            assert(bs[i] == bs.subrange(1, bs.len() as int)[i - 1]);
                            assert(tail_bytes_p[i - 1] == tail_bytes_s.subrange(0, tail_bytes_p.len() as int)[i - 1]);
                        }
                    }
                }
                assert(bs.subrange(p.len() as int, bs.len() as int) =~= tail_bytes_s.subrange(
                    tail_p.len() as int,
                    tail_bytes_s.len() as int,
                ));
                assert(s.skip(p.len() as int) =~= tail_s.skip(tail_p.len() as int));
            }
            if bp.is_prefix_of(bs) {
                assert(bs[0] == bp[0]) by {
                    assert(bp[0] == bs.subrange(0, bp.len() as int)[0]);
                }
                assert(bp[0] == p[0] as u8);
                assert(bs[0] < 0x80);
                assert(bs[0] == s[0] as u8);
                assert(s[0] == p[0]);
                assert(bs.subrange(1, bs.len() as int) == tail_bytes_s);
                assert(tail_bytes_p.is_prefix_of(tail_bytes_s)) by {
                    assert forall|i: int| 0 <= i < tail_bytes_p.len() implies tail_bytes_p[i] == tail_bytes_s[i] by {
                        assert(tail_bytes_p[i] == bp.subrange(1, bp.len() as int)[i]);
                        assert(tail_bytes_s[i] == bs.subrange(1, bs.len() as int)[i]);
                        assert(bp[i + 1] == bs.subrange(0, bp.len() as int)[i + 1]);
                    }
                    assert(tail_bytes_p =~= tail_bytes_s.subrange(0, tail_bytes_p.len() as int));
                }
                assert(tail_p.is_prefix_of(tail_s));
                assert(p =~= s.subrange(0, p.len() as int)) by {
                    assert forall|i: int| 0 <= i < p.len() implies p[i] == s[i] by {
                        if i > 0 {
                            assert(tail_p[i - 1] == tail_s.subrange(0, tail_p.len() as int)[i - 1]);
                        }
                    }
                }
            }
        }
    }
}

/// The encoding of two texts, one behind the other, is their encodings,
/// one behind the other.
pub proof fn lemma_encode_concat(a: Seq<char>, b: Seq<char>)
    ensures
        encode_utf8(a + b) == encode_utf8(a) + encode_utf8(b),
    decreases a.len(),
{
    if a.len() == 0 {
        assert(a + b =~= b);
        assert(encode_utf8(a) + encode_utf8(b) =~= encode_utf8(b));
    } else {
        let rest = a.drop_first();
        lemma_encode_concat(rest, b);
        assert((a + b).drop_first() =~= rest + b);
        assert((a + b)[0] == a[0]);
        let head = encode_scalar(a[0] as u32);
        assert(head + (encode_utf8(rest) + encode_utf8(b)) =~= (head + encode_utf8(rest))
            + encode_utf8(b));
    }
}

/// Every byte of a character that is not ASCII is 0x80 or more.
pub proof fn lemma_wide_bytes(c: char, i: int)
    requires
        !is_ascii_char(c),
        0 <= i < encode_scalar(c as u32).len(),
    ensures
        encode_scalar(c as u32)[i] >= 0x80,
{
    let v = c as u32;
    char_is_scalar(c);
    char_u32_cast(c, v);
    assert(is_ascii_char(c) == (v <= 0x7F));
    assert((0xC0 | ((v >> 6) & 0x1F) as u8) >= 0x80) by (bit_vector);
    assert((0xE0 | ((v >> 12) & 0x0F) as u8) >= 0x80) by (bit_vector);
    assert((0xF0 | ((v >> 18) & 0x7) as u8) >= 0x80) by (bit_vector);
    assert((0x80 | (v & 0x3F) as u8) >= 0x80) by (bit_vector);
    assert((0x80 | ((v >> 6) & 0x3F) as u8) >= 0x80) by (bit_vector);
    assert((0x80 | ((v >> 12) & 0x3F) as u8) >= 0x80) by (bit_vector);
}

/// An ASCII byte in the encoding of a text is one of the text's
/// characters: the encoding of other characters holds no ASCII byte.
pub proof fn lemma_ascii_byte_is_char(s: Seq<char>, i: int) -> (j: int)
    requires
        0 <= i < encode_utf8(s).len(),
        encode_utf8(s)[i] < 0x80,
    ensures
        0 <= j < s.len(),
        is_ascii_char(s[j]),
        s[j] as u8 == encode_utf8(s)[i],
    decreases s.len(),
{
    let head = encode_scalar(s[0] as u32);
    let rest = s.drop_first();
    assert(s.len() > 0);
    assert(encode_utf8(s) == head + encode_utf8(rest));
    if i < head.len() {
        assert(encode_utf8(s)[i] == head[i]);
        if is_ascii_char(s[0]) {
            lemma_first_char(s);
            char_is_scalar(s[0]);
            char_u32_cast(s[0], s[0] as u32);
            assert(head.len() == 1);
            0
        } else {
            lemma_wide_bytes(s[0], i);
            0
        }
    } else {
        assert(encode_utf8(s)[i] == encode_utf8(rest)[i - head.len()]);
        let k = lemma_ascii_byte_is_char(rest, i - head.len());
        assert(rest[k] == s[k + 1]);
        k + 1
    }
}

/// The encoding of an ASCII text has one byte for each character, the
/// character itself.
pub proof fn lemma_ascii_encoding(p: Seq<char>)
    requires
        is_ascii_chars(p),
    ensures
        encode_utf8(p).len() == p.len(),
        forall|i: int| 0 <= i < p.len() ==> #[trigger] encode_utf8(p)[i] == p[i] as u8,
{
    is_ascii_chars_encode_utf8(p);
}

/// Behind an ASCII prefix of a string lies a character boundary, and the
/// bytes from there on hold the rest of the characters.
pub proof fn lemma_after_ascii_prefix(s: &str, p: Seq<char>)
    requires
        is_ascii_chars(p),
        p.is_prefix_of(s@),
    ensures
        p.len() <= s.spec_bytes().len(),
        is_char_boundary(s.spec_bytes(), p.len() as int),
        text_of(s.spec_bytes(), p.len() as int, s.spec_bytes().len() as int) == s@.skip(
            p.len() as int,
        ),
{
    let bytes = s.spec_bytes();
    let k = p.len() as int;
    let rest = s@.skip(k);
    lemma_str_bytes(s);
    lemma_ascii_prefix(s@, p);
    encode_utf8_valid_utf8(rest);
    encode_utf8_decode_utf8(rest);
    let tail = bytes.subrange(k, bytes.len() as int);
    if k < bytes.len() {
        assert(tail[0] == bytes[k]);
        assert(valid_first_scalar(tail));
        is_char_boundary_iff_not_is_continuation_byte(bytes, k);
    }
}

/// The first character of `s` and what follows it; `None` if `s` is empty.
pub fn split_first<'a>(s: &'a str) -> (r: Option<(char, &'a str)>)
    ensures
        match r {
            Some((c, rest)) => s@.len() > 0 && c == s@[0] && rest@ == s@.skip(1),
            None => s@.len() == 0,
        },
{
    proof {
        lemma_str_bytes(s);
        if s@.len() > 0 {
            lemma_first_char(s@);
        }
    }
    let bytes = s.as_bytes();
    let len = bytes.len();
    if len == 0 {
        return None;
    }
    let b = bytes[0];
    let width: usize = if b < 0x80 {
        1
    } else if b < 0xe0 {
        2
    } else if b < 0xf0 {
        3
    } else {
        4
    };
    let mut chars = s.chars();
    let first = chars.next();
    proof {
        let src = s.spec_bytes();
        assert(valid_first_scalar(src));
        assert(width == length_of_first_scalar(src));
        assert(is_char_boundary(src, width as int)) by {
            reveal_with_fuel(is_char_boundary, 2);
        }
        assert(src.subrange(width as int, len as int) == pop_first_scalar(src));
        assert(s@.skip(1) =~= decode_utf8(pop_first_scalar(src)));
    }
    match first {
        Some(c) => Some((c, slice_of(s, width, len))),
        None => None,
    }
}

/// Whether `s` starts with the ASCII text `p`.
pub(crate) fn starts_with(s: &str, p: &str) -> (r: bool)
    requires
        is_ascii_chars(p@),
    ensures
        r == p@.is_prefix_of(s@),
{
    let a = s.as_bytes();
    let b = p.as_bytes();
    proof {
        lemma_ascii_prefix(s@, p@);
    }
    if b.len() > a.len() {
        return false;
    }
    let mut i: usize = 0;
    while i < b.len()
        invariant
            a@ == s.spec_bytes(),
            b@ == p.spec_bytes(),
            b@.len() <= a@.len(),
            i <= b@.len(),
            forall|k: int| 0 <= k < i ==> a@[k] == b@[k],
            p@.is_prefix_of(s@) <==> b@.is_prefix_of(a@),
        decreases b@.len() - i,
    {
        if a[i] != b[i] {
            proof {
                if b@.is_prefix_of(a@) {
                    assert(b@[i as int] == a@.subrange(0, b@.len() as int)[i as int]);
                }
            }
            return false;
        }
        i += 1;
    }
    proof {
        assert(b@ =~= a@.subrange(0, b@.len() as int));
    }
    true
}

/// The characters that count as whitespace at the ends of a document: the
/// Unicode property White_Space.
pub open spec fn is_white_space(c: char) -> bool {
    ('\u{9}' <= c <= '\u{d}') || c == ' ' || c == '\u{85}' || c == '\u{a0}' || c == '\u{1680}' || (
    '\u{2000}' <= c <= '\u{200a}') || c == '\u{2028}' || c == '\u{2029}' || c == '\u{202f}' || c
        == '\u{205f}' || c == '\u{3000}'
}

/// A text without the whitespace at its two ends.
pub open spec fn trimmed(s: Seq<char>) -> Seq<char>
    decreases s.len(),
{
    if s.len() > 0 && is_white_space(s[0]) {
        trimmed(s.drop_first())
    } else if s.len() > 0 && is_white_space(s.last()) {
        trimmed(s.drop_last())
    } else {
        s
    }
}

/// `str::trim` returns the part of the string between its leading and its
/// trailing whitespace, where whitespace is the Unicode property White_Space.
pub assume_specification[ str::trim ](s: &str) -> (r: &str)
    ensures
        r@ == trimmed(s@),
;

/// `String::push` appends one character to the end of the string.
pub assume_specification[ String::push ](s: &mut String, c: char)
    ensures
        final(s)@ == old(s)@.push(c),
;

} // verus!
