use std::borrow::Cow;

use nanoxml::de::{starts_with_xml_escape_code, XmlStr, XmlStrIter};

#[test]
fn the_five_entities() {
    assert_eq!(XmlStr::new("&lt;").owned(), "<");
    assert_eq!(XmlStr::new("&gt;").owned(), ">");
    assert_eq!(XmlStr::new("&amp;").owned(), "&");
    assert_eq!(XmlStr::new("&quot;").owned(), "\"");
    assert_eq!(XmlStr::new("&apos;").owned(), "'");
    assert_eq!(
        XmlStr::new("a&lt;b&gt;c&amp;d&quot;e&apos;f").owned(),
        "a<b>c&d\"e'f"
    );
}

#[test]
fn anything_else_behind_an_ampersand_stands() {
    for raw in [
        "&", "&&", "&;", "&foo;", "&lt", "&LT;", "&amp", "& amp;", "&#38;", "&#x26;", "a&", "&ltx",
        "&quo;t;", "&aposs",
    ] {
        let s = XmlStr::new(raw);
        assert_eq!(s.owned(), raw);
        assert!(!s.has_reference());
        assert!(matches!(s.parsed(), Cow::Borrowed(b) if b == raw));
    }
    assert_eq!(XmlStr::new("&&amp;&").owned(), "&&&");
    assert_eq!(XmlStr::new("&amp;amp;").owned(), "&amp;");
    assert_eq!(XmlStr::new("&amp;lt;").owned(), "&lt;");
}

#[test]
fn text_without_an_entity_is_borrowed_unchanged() {
    for raw in ["", "plain", "Ħ€lłö & Wø®lð", "a;b", "x > y"] {
        let s = XmlStr::new(raw);
        assert_eq!(s.raw(), raw);
        assert_eq!(s.owned(), raw);
        match s.parsed() {
            Cow::Borrowed(b) => {
                assert_eq!(b, raw);
                assert_eq!(b.as_ptr(), raw.as_ptr());
            }
            Cow::Owned(_) => panic!("copied {raw}"),
        }
    }
}

#[test]
fn text_with_an_entity_is_decoded_into_a_copy() {
    let s = XmlStr::new("ä&amp;ö&lt;ü");
    assert!(s.has_reference());
    assert!(matches!(s.parsed(), Cow::Owned(o) if o == "ä&ö<ü"));
    assert_eq!(s.raw(), "ä&amp;ö&lt;ü");
}

#[test]
fn the_decoded_characters_one_by_one() {
    let mut iter = XmlStr::new("a&lt;€&x𝄞&apos;").iter();
    let mut seen = Vec::new();
    while let Some(c) = iter.next() {
        seen.push(c);
    }
    assert_eq!(seen, vec!['a', '<', '€', '&', 'x', '𝄞', '\'']);
    assert_eq!(iter.next(), None);
    assert_eq!(iter.next(), None);

    let mut iter = XmlStrIter::new("");
    assert_eq!(iter.next(), None);
}

#[test]
fn iterating_again_starts_again() {
    let s = XmlStr::new("&gt;x");
    let mut first = s.iter();
    assert_eq!(first.next(), Some('>'));
    let mut second = s.iter();
    assert_eq!(second.next(), Some('>'));
    assert_eq!(second.next(), Some('x'));
    assert_eq!(first.next(), Some('x'));
}

#[test]
fn comparing_with_plain_text_compares_the_decoded_text() {
    assert!(XmlStr::new("a&amp;b") == "a&b");
    assert!(XmlStr::new("a&amp;b") != "a&amp;b");
    assert!(XmlStr::new("a&b") == "a&b");
    assert!(XmlStr::new("") == "");
    assert!(XmlStr::new("abc") != "ab");
    assert!(XmlStr::new("ab") != "abc");
    assert!(XmlStr::new("ab") != "ax");
    assert!(XmlStr::new("&lt;") == *"<");
    assert!(XmlStr::new("Ħ€&apos;") == "Ħ€'");
    assert!(XmlStr::new("a&amp;b").eq_str("a&b"));
    assert!(!XmlStr::new("a&amp;b").eq_str("a&amp;b"));
}

#[test]
fn comparing_two_views_compares_the_raw_text() {
    assert_eq!(XmlStr::new("a&amp;b"), XmlStr::new("a&amp;b"));
    assert_ne!(XmlStr::new("a&amp;b"), XmlStr::new("a&b"));
}

#[test]
fn decoding_into_a_fixed_capacity() {
    let s = XmlStr::new("a&lt;b");
    let fits: heapless::String<3> = s.heapless().unwrap();
    assert_eq!(fits.as_str(), "a<b");
    assert_eq!(s.heapless::<2>(), Err(()));
    assert_eq!(s.heapless::<0>(), Err(()));
    let roomy: heapless::String<16> = s.heapless().unwrap();
    assert_eq!(roomy.as_str(), "a<b");

    let wide = XmlStr::new("€&amp;");
    assert_eq!(wide.heapless::<4>().unwrap().as_str(), "€&");
    assert_eq!(wide.heapless::<3>(), Err(()));

    let empty: heapless::String<0> = XmlStr::new("").heapless().unwrap();
    assert_eq!(empty.as_str(), "");
}

#[test]
fn the_entity_at_the_start_of_a_text() {
    assert_eq!(starts_with_xml_escape_code("lt;"), Some(('<', 3)));
    assert_eq!(starts_with_xml_escape_code("gt;x"), Some(('>', 3)));
    assert_eq!(starts_with_xml_escape_code("amp;amp;"), Some(('&', 4)));
    assert_eq!(starts_with_xml_escape_code("quot;"), Some(('"', 5)));
    assert_eq!(starts_with_xml_escape_code("apos;é"), Some(('\'', 5)));
    assert_eq!(starts_with_xml_escape_code(""), None);
    assert_eq!(starts_with_xml_escape_code("lt"), None);
    assert_eq!(starts_with_xml_escape_code("&lt;"), None);
    assert_eq!(starts_with_xml_escape_code("Lt;"), None);
    assert_eq!(starts_with_xml_escape_code("élt;"), None);
}
