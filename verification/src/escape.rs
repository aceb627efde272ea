//! Entity references: what escaping writes and what decoding reads.
//!
//! Five characters are written as named references, `<` `>` `&` `"` `'`, and
//! exactly those five references are read back as characters. An `&` that
//! starts none of them stands for itself.

use vstd::prelude::*;

verus! {

/// The reference that `s` starts with, behind an `&` already read: the
/// character it stands for and the number of characters it takes up.
pub open spec fn entity(s: Seq<char>) -> Option<(char, int)> {
    if seq!['l', 't', ';'].is_prefix_of(s) {
        Some(('<', 3))
    } else if seq!['g', 't', ';'].is_prefix_of(s) {
        Some(('>', 3))
    } else if seq!['a', 'm', 'p', ';'].is_prefix_of(s) {
        Some(('&', 4))
    } else if seq!['q', 'u', 'o', 't', ';'].is_prefix_of(s) {
        Some(('"', 5))
    } else if seq!['a', 'p', 'o', 's', ';'].is_prefix_of(s) {
        Some(('\'', 5))
    } else {
        None
    }
}

/// The decoded form of raw text: each of the five references gives its
/// character, every other character gives itself.
pub open spec fn unescape(s: Seq<char>) -> Seq<char>
    decreases s.len(),
{
    if s.len() == 0 {
        Seq::empty()
    } else if s[0] == '&' {
        match entity(s.skip(1)) {
            Some((c, n)) => seq![c] + unescape(s.skip(1 + n)),
            None => seq!['&'] + unescape(s.skip(1)),
        }
    } else {
        seq![s[0]] + unescape(s.skip(1))
    }
}

/// Whether raw text holds a reference, that is, whether decoding changes it.
pub open spec fn has_entity(s: Seq<char>) -> bool {
    exists|i: int| 0 <= i < s.len() && s[i] == '&' && (#[trigger] entity(s.skip(i + 1))) is Some
}

/// What one character is written as.
pub open spec fn escape_char(c: char) -> Seq<char> {
    if c == '<' {
        seq!['&', 'l', 't', ';']
    } else if c == '>' {
        seq!['&', 'g', 't', ';']
    } else if c == '&' {
        seq!['&', 'a', 'm', 'p', ';']
    } else if c == '"' {
        seq!['&', 'q', 'u', 'o', 't', ';']
    } else if c == '\'' {
        seq!['&', 'a', 'p', 'o', 's', ';']
    } else {
        seq![c]
    }
}

/// What text is written as: each character escaped, in order.
pub open spec fn escape(s: Seq<char>) -> Seq<char>
    decreases s.len(),
{
    if s.len() == 0 {
        Seq::empty()
    } else {
        escape(s.drop_last()) + escape_char(s.last())
    }
}

/// Whether `c` is one of the two characters that end a value: `<` ends
/// text and `"` ends an attribute value.
pub open spec fn is_delimiter(c: char) -> bool {
    c == '<' || c == '"'
}

/// Escaping distributes over concatenation.
pub proof fn lemma_escape_concat(a: Seq<char>, b: Seq<char>)
    ensures
        escape(a + b) == escape(a) + escape(b),
    decreases b.len(),
{
    if b.len() == 0 {
        assert(a + b =~= a);
        assert(escape(a) + escape(b) =~= escape(a));
    } else {
        lemma_escape_concat(a, b.drop_last());
        assert((a + b).drop_last() =~= a + b.drop_last());
        assert((a + b).last() == b.last());
        assert(escape(a) + (escape(b.drop_last()) + escape_char(b.last())) =~= (escape(a) + escape(
            b.drop_last(),
        )) + escape_char(b.last()));
    }
}

/// Escaping one character in front: the escaped text starts with what that
/// character is written as.
pub proof fn lemma_escape_first(s: Seq<char>)
    requires
        s.len() > 0,
    ensures
        escape(s) == escape_char(s[0]) + escape(s.drop_first()),
{
    let head = seq![s[0]];
    assert(s =~= head + s.drop_first());
    lemma_escape_concat(head, s.drop_first());
    assert(head.drop_last() =~= Seq::<char>::empty());
    assert(escape(head.drop_last()) =~= Seq::<char>::empty());
    assert(head.last() == s[0]);
    assert(escape(head) =~= escape_char(s[0]));
}

/// Decoding what one escaped character was written as, in front of any
/// text, gives the character back, in front of that text decoded.
pub proof fn lemma_unescape_escaped_char(c: char, rest: Seq<char>)
    ensures
        unescape(escape_char(c) + rest) == seq![c] + unescape(rest),
{
    let e = escape_char(c);
    let s = e + rest;
    assert(s[0] == e[0]);
    if c == '<' || c == '>' || c == '&' || c == '"' || c == '\'' {
        let code = e.skip(1);
        assert(s.skip(1) =~= code + rest);
        assert(code.is_prefix_of(s.skip(1))) by {
            assert(code =~= s.skip(1).subrange(0, code.len() as int));
        }
        assert(entity(s.skip(1)) == Some((c, code.len() as int)));
        assert(s.skip(1 + code.len() as int) =~= rest);
    } else {
        assert(s.skip(1) =~= rest);
    }
}

/// Decoding undoes escaping: whatever text is written, reading the written
/// form gives the text back.
pub proof fn lemma_unescape_escape(s: Seq<char>)
    ensures
        unescape(escape(s)) == s,
    decreases s.len(),
{
    if s.len() == 0 {
    } else {
        lemma_escape_first(s);
        lemma_unescape_escaped_char(s[0], escape(s.drop_first()));
        lemma_unescape_escape(s.drop_first());
        assert(seq![s[0]] + s.drop_first() =~= s);
    }
}

/// Text without a reference decodes to itself.
pub proof fn lemma_unescape_plain(s: Seq<char>)
    requires
        !has_entity(s),
    ensures
        unescape(s) == s,
    decreases s.len(),
{
    if s.len() == 0 {
        assert(unescape(s) =~= s);
    } else {
        let t = s.skip(1);
        assert(!has_entity(t)) by {
            if has_entity(t) {
                let i = choose|i: int|
                    0 <= i < t.len() && t[i] == '&' && (#[trigger] entity(t.skip(i + 1))) is Some;
                assert(t.skip(i + 1) =~= s.skip(i + 2));
                assert(s[i + 1] == '&' && entity(s.skip((i + 1) + 1)) is Some);
            }
        }
        lemma_unescape_plain(t);
        if s[0] == '&' {
            assert(entity(s.skip(0int + 1)) is None);
        }
        assert(seq![s[0]] + t =~= s);
    }
}

/// Text with a reference does not decode to itself: the decoded form is
/// shorter.
pub proof fn lemma_unescape_shrinks(s: Seq<char>)
    ensures
        unescape(s).len() <= s.len(),
        has_entity(s) ==> unescape(s).len() < s.len(),
    decreases s.len(),
{
    if s.len() == 0 {
    } else {
        let t = s.skip(1);
        lemma_unescape_shrinks(t);
        if s[0] == '&' && entity(t) is Some {
            let found = entity(t)->0;
            lemma_unescape_shrinks(s.skip(1 + found.1));
        } else if has_entity(s) {
            let i = choose|i: int|
                0 <= i < s.len() && s[i] == '&' && (#[trigger] entity(s.skip(i + 1))) is Some;
            assert(i > 0);
            assert(s.skip(i + 1) =~= t.skip((i - 1) + 1));
            assert(t[i - 1] == '&');
            assert(has_entity(t));
        }
    }
}

/// The escaped form holds none of the characters that end a value, so a
/// written value is read back whole.
pub proof fn lemma_escape_no_delimiter(s: Seq<char>)
    ensures
        forall|i: int| 0 <= i < escape(s).len() ==> !is_delimiter(#[trigger] escape(s)[i]),
    decreases s.len(),
{
    if s.len() > 0 {
        lemma_escape_no_delimiter(s.drop_last());
        let head = escape(s.drop_last());
        let tail = escape_char(s.last());
        assert forall|i: int| 0 <= i < escape(s).len() implies !is_delimiter(
            #[trigger] escape(s)[i],
        ) by {
            if i < head.len() {
                assert(escape(s)[i] == head[i]);
            } else {
                assert(escape(s)[i] == tail[i - head.len()]);
            }
        }
    }
}

/// The five references, each in front of any text: the text decodes to the
/// character in front of the rest decoded.
pub proof fn lemma_entity_table(rest: Seq<char>)
    ensures
        unescape(seq!['&', 'l', 't', ';'] + rest) == seq!['<'] + unescape(rest),
        unescape(seq!['&', 'g', 't', ';'] + rest) == seq!['>'] + unescape(rest),
        unescape(seq!['&', 'a', 'm', 'p', ';'] + rest) == seq!['&'] + unescape(rest),
        unescape(seq!['&', 'q', 'u', 'o', 't', ';'] + rest) == seq!['"'] + unescape(rest),
        unescape(seq!['&', 'a', 'p', 'o', 's', ';'] + rest) == seq!['\''] + unescape(rest),
{
    lemma_unescape_escaped_char('<', rest);
    lemma_unescape_escaped_char('>', rest);
    lemma_unescape_escaped_char('&', rest);
    lemma_unescape_escaped_char('"', rest);
    lemma_unescape_escaped_char('\'', rest);
}

/// An `&` that starts none of the five references stands for itself, and so
/// does every other character.
pub proof fn lemma_other_passes(c: char, rest: Seq<char>)
    requires
        c == '&' ==> entity(rest) is None,
    ensures
        unescape(seq![c] + rest) == seq![c] + unescape(rest),
{
    let s = seq![c] + rest;
    assert(s[0] == c);
    assert(s.skip(1) =~= rest);
}

} // verus!
