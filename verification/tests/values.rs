use std::borrow::Cow;

use nanoxml::de::{XmlError, XmlParser, XmlStr};
use nanoxml::decimal::{
    parse_digits, parse_truth, parse_unsigned, push_bool, push_decimal, push_signed_decimal,
};
use nanoxml::derive::de::{DeXml, DeXmlAttr, DeXmlSeq};
use nanoxml::derive::ser::{
    ser_attribute, ser_element, ser_elements, RawXml, SerXml, SerXmlAsAttr, SerXmlNoAttrs,
};
use nanoxml::ser::XmlBuilder;
use nanoxml::text::{split_first, str_eq};

fn element<T: SerXml + ?Sized>(value: &T) -> Result<String, String> {
    let mut s = String::new();
    let mut xml = XmlBuilder::new(&mut s);
    match value.ser_xml(&mut xml, "x") {
        Ok(()) => Ok(s),
        Err(_) => Err(s),
    }
}

fn attribute<T: SerXmlAsAttr + ?Sized>(value: &T) -> String {
    let mut s = String::new();
    let mut xml = XmlBuilder::new(&mut s);
    value.ser_as_attr(&mut xml, "k").unwrap();
    s
}

fn body<T: SerXml + ?Sized>(value: &T) -> String {
    let mut s = String::new();
    let mut xml = XmlBuilder::new(&mut s);
    value.ser_body(&mut xml).unwrap();
    value.ser_attrs(&mut xml).unwrap();
    s
}

fn read<'a, T: DeXmlAttr<'a>>(raw: &'a str) -> Result<T, XmlError> {
    T::de_xml_attr(XmlStr::new(raw))
}

#[test]
fn numbers_are_written_in_decimal() {
    assert_eq!(body(&0u8), "0");
    assert_eq!(body(&u8::MAX), "255");
    assert_eq!(body(&u16::MAX), "65535");
    assert_eq!(body(&u32::MAX), "4294967295");
    assert_eq!(body(&u64::MAX), "18446744073709551615");
    assert_eq!(body(&(usize::MAX as u64 as usize)), usize::MAX.to_string());
    assert_eq!(body(&i8::MIN), "-128");
    assert_eq!(body(&i8::MAX), "127");
    assert_eq!(body(&i16::MIN), "-32768");
    assert_eq!(body(&i32::MIN), "-2147483648");
    assert_eq!(body(&i64::MIN), "-9223372036854775808");
    assert_eq!(body(&i64::MAX), "9223372036854775807");
    assert_eq!(body(&isize::MIN), isize::MIN.to_string());
    assert_eq!(body(&-1i32), "-1");
    assert_eq!(body(&10u32), "10");
    assert_eq!(body(&1000000i64), "1000000");
    assert_eq!(element(&42u64).unwrap(), "<x>42</x>");
    assert_eq!(attribute(&-7i8), " k=\"-7\"");
}

#[test]
fn decimal_digits() {
    let mut s = String::from("n=");
    push_decimal(&mut s, 0);
    push_decimal(&mut s, 907);
    push_signed_decimal(&mut s, -5);
    push_signed_decimal(&mut s, 60);
    push_bool(&mut s, true);
    push_bool(&mut s, false);
    assert_eq!(s, "n=0907-560truefalse");
}

#[test]
fn numbers_are_read_from_a_sign_and_digits() {
    assert_eq!(read::<u8>("0"), Ok(0));
    assert_eq!(read::<u8>("255"), Ok(255));
    assert_eq!(read::<u8>("+255"), Ok(255));
    assert_eq!(read::<u8>("000255"), Ok(255));
    assert_eq!(read::<u8>("256"), Err(XmlError::InvalidValue));
    assert_eq!(read::<u8>("-0"), Err(XmlError::InvalidValue));
    assert_eq!(read::<u8>("-1"), Err(XmlError::InvalidValue));
    assert_eq!(read::<u16>("65535"), Ok(65535));
    assert_eq!(read::<u16>("65536"), Err(XmlError::InvalidValue));
    assert_eq!(read::<u32>("4294967295"), Ok(u32::MAX));
    assert_eq!(read::<u32>("4294967296"), Err(XmlError::InvalidValue));
    assert_eq!(read::<u64>("18446744073709551615"), Ok(u64::MAX));
    assert_eq!(read::<u64>("18446744073709551616"), Err(XmlError::InvalidValue));
    assert_eq!(read::<u64>("99999999999999999999999"), Err(XmlError::InvalidValue));
    assert_eq!(read::<i8>("-128"), Ok(-128));
    assert_eq!(read::<i8>("-129"), Err(XmlError::InvalidValue));
    assert_eq!(read::<i8>("127"), Ok(127));
    assert_eq!(read::<i8>("128"), Err(XmlError::InvalidValue));
    assert_eq!(read::<i8>("-0"), Ok(0));
    assert_eq!(read::<i8>("+0"), Ok(0));
    assert_eq!(read::<i16>("-32768"), Ok(i16::MIN));
    assert_eq!(read::<i32>("-2147483648"), Ok(i32::MIN));
    assert_eq!(read::<i32>("2147483648"), Err(XmlError::InvalidValue));
    assert_eq!(read::<i64>("-9223372036854775808"), Ok(i64::MIN));
    assert_eq!(read::<i64>("-9223372036854775809"), Err(XmlError::InvalidValue));
    assert_eq!(read::<i64>("9223372036854775807"), Ok(i64::MAX));
    assert_eq!(read::<i64>("9223372036854775808"), Err(XmlError::InvalidValue));
    assert_eq!(read::<i64>("-007"), Ok(-7));
}

#[test]
fn text_that_is_no_number() {
    for raw in [
        "", "+", "-", "++1", "--1", "+-1", "1+", " 1", "1 ", "1.0", "1e3", "0x10", "1_000", "١",
        "&#49;", "1&amp;", "one", "１",
    ] {
        assert_eq!(read::<u32>(raw), Err(XmlError::InvalidValue), "{raw}");
        assert_eq!(read::<i32>(raw), Err(XmlError::InvalidValue), "{raw}");
    }
}

#[test]
fn numbers_against_the_standard_library() {
    for raw in ["0", "+0", "-0", "007", "255", "256", "-128", "-129", "+127", "128", "", "-", "+", "12a"] {
        assert_eq!(read::<u8>(raw).ok(), raw.parse::<u8>().ok(), "{raw}");
        assert_eq!(read::<i8>(raw).ok(), raw.parse::<i8>().ok(), "{raw}");
        assert_eq!(read::<u64>(raw).ok(), raw.parse::<u64>().ok(), "{raw}");
        assert_eq!(read::<i64>(raw).ok(), raw.parse::<i64>().ok(), "{raw}");
    }
    for n in [0i64, 1, -1, 9, 10, -10, 99, 100, 12345, -98765, i64::MAX, i64::MIN] {
        assert_eq!(body(&n), n.to_string());
        assert_eq!(read::<i64>(&body(&n)), Ok(n));
    }
    for n in [0u64, 9, 10, 11, 1 << 63, u64::MAX] {
        assert_eq!(body(&n), n.to_string());
        assert_eq!(read::<u64>(&body(&n)), Ok(n));
    }
}

#[test]
fn reading_digits_and_signs() {
    assert_eq!(parse_digits("0123", 123), Some(123));
    assert_eq!(parse_digits("124", 123), None);
    assert_eq!(parse_digits("", 123), None);
    assert_eq!(parse_digits("+1", 123), None);
    assert_eq!(parse_digits("0", 0), Some(0));
    assert_eq!(parse_digits("1", 0), None);
    assert_eq!(parse_unsigned("+9", 9), Some(9));
    assert_eq!(parse_unsigned("10", 9), None);
    assert_eq!(parse_unsigned("-0", 9), None);
    assert_eq!(parse_truth("true"), Some(true));
    assert_eq!(parse_truth("false"), Some(false));
    assert_eq!(parse_truth("True"), None);
}

#[test]
fn truth_values() {
    assert_eq!(body(&true), "true");
    assert_eq!(body(&false), "false");
    assert_eq!(element(&true).unwrap(), "<x>true</x>");
    assert_eq!(attribute(&false), " k=\"false\"");
    assert_eq!(read::<bool>("true"), Ok(true));
    assert_eq!(read::<bool>("false"), Ok(false));
    for raw in ["", "1", "0", "TRUE", "True", "true ", " false", "truefalse", "yes"] {
        assert_eq!(read::<bool>(raw), Err(XmlError::InvalidValue), "{raw}");
    }
}

#[test]
fn strings_are_written_escaped_and_read_decoded() {
    let text = "a<b>&\"'é";
    let written = "a&lt;b&gt;&amp;&quot;&apos;é";
    assert_eq!(body(text), written);
    assert_eq!(body(&String::from(text)), written);
    assert_eq!(body(&Cow::Borrowed(text)), written);
    assert_eq!(body(&Cow::<str>::Owned(String::from(text))), written);
    assert_eq!(element(text).unwrap(), format!("<x>{written}</x>"));
    assert_eq!(attribute(&String::from(text)), format!(" k=\"{written}\""));
    assert_eq!(read::<String>(written), Ok(String::from(text)));
    assert_eq!(read::<Cow<str>>(written), Ok(Cow::Borrowed(text)));
    assert!(matches!(read::<Cow<str>>(written), Ok(Cow::Owned(_))));
    assert!(matches!(read::<Cow<str>>("plain"), Ok(Cow::Borrowed("plain"))));
    assert_eq!(read::<String>(""), Ok(String::new()));
    assert_eq!(element("").unwrap(), "<x></x>");
    for text in ["", "a", "a b ", "<&>", "'\"", "é "] {
        let written = element(text).unwrap();
        let mut parser = XmlParser::new(&written).unwrap();
        parser.tag_open_start("x").unwrap();
        assert_eq!(<String as DeXml>::de_xml(&mut parser), Ok(String::from(text)));
        parser.check_end().unwrap();
    }
}

#[test]
fn raw_text_is_written_and_read_as_it_stands() {
    let raw = XmlStr::new("a&amp;b&foo;");
    assert_eq!(body(&raw), "a&amp;b&foo;");
    assert_eq!(element(&raw).unwrap(), "<x>a&amp;b&foo;</x>");
    assert_eq!(attribute(&raw), " k=\"a&amp;b&foo;\"");
    assert_eq!(read::<XmlStr>("a&amp;b").unwrap().raw(), "a&amp;b");

    let markup = RawXml::from(String::from("<Foo>Bar&Baz</Foo>"));
    assert_eq!(markup, RawXml(String::from("<Foo>Bar&Baz</Foo>")));
    assert_eq!(element(&markup).unwrap(), "<x><Foo>Bar&Baz</Foo></x>");
    assert_eq!(element("<Foo>Bar&Baz</Foo>").unwrap(), "<x>&lt;Foo&gt;Bar&amp;Baz&lt;/Foo&gt;</x>");
}

#[test]
fn an_absent_value_writes_nothing() {
    assert_eq!(element(&None::<u8>).unwrap(), "");
    assert_eq!(attribute(&None::<String>), "");
    assert_eq!(body(&None::<bool>), "");
    assert_eq!(element(&Some(7u8)).unwrap(), "<x>7</x>");
    assert_eq!(attribute(&Some(String::from("v"))), " k=\"v\"");
    assert_eq!(body(&Some(true)), "true");
    assert_eq!(element(&Some(Some(1i16))).unwrap(), "<x>1</x>");
    assert_eq!(element(&Some(None::<i16>)).unwrap(), "");
    assert_eq!(element(&Some(vec![1u8, 2])).unwrap(), "<x>1</x><x>2</x>");
}

#[test]
fn a_sequence_writes_one_element_for_each_item_in_order() {
    let items = vec![String::from("a"), String::from("b"), String::from("c")];
    assert_eq!(element(&items).unwrap(), "<x>a</x><x>b</x><x>c</x>");
    assert_eq!(element(&items[..]).unwrap(), "<x>a</x><x>b</x><x>c</x>");
    assert_eq!(element(&[-1i32, 0, 1]).unwrap(), "<x>-1</x><x>0</x><x>1</x>");
    assert_eq!(element(&Vec::<u8>::new()).unwrap(), "");
    assert_eq!(element(&[0u8; 0]).unwrap(), "");
    assert_eq!(
        element(&vec![vec![1u8], vec![], vec![2, 3]]).unwrap(),
        "<x>1</x><x>2</x><x>3</x>"
    );
    assert_eq!(element(&vec![Some(1u8), None, Some(3)]).unwrap(), "<x>1</x><x>3</x>");
    let mut s = String::new();
    let mut xml = XmlBuilder::new(&mut s);
    ser_elements(&[true, false], &mut xml, "b").unwrap();
    assert_eq!(s, "<b>true</b><b>false</b>");
}

#[test]
fn a_sequence_is_neither_a_body_nor_attributes() {
    let items = vec![1u8, 2];
    let mut s = String::new();
    let mut xml = XmlBuilder::new(&mut s);
    assert!(items.ser_body(&mut xml).is_err());
    assert!(items.ser_attrs(&mut xml).is_err());
    assert!(items[..].ser_body(&mut xml).is_err());
    assert!(items[..].ser_attrs(&mut xml).is_err());
    assert!([1u8, 2].ser_body(&mut xml).is_err());
    assert!([1u8, 2].ser_attrs(&mut xml).is_err());
    assert_eq!(s, "");
    assert_eq!(element(&&items), Err(String::from("<x")));
    assert_eq!(element(&Some(&items)), Err(String::from("<x")));
}

#[test]
fn a_reference_writes_what_it_refers_to() {
    assert_eq!(element(&&5u8).unwrap(), "<x>5</x>");
    assert_eq!(element(&&"a&b").unwrap(), "<x>a&amp;b</x>");
    assert_eq!(attribute(&&&true), " k=\"true\"");
    assert_eq!(body(&&String::from("<")), "&lt;");
}

#[test]
fn a_value_as_text_or_as_body() {
    let mut s = String::new();
    let mut xml = XmlBuilder::new(&mut s);
    12u8.ser_as_text(&mut xml).unwrap();
    "<".ser_as_text(&mut xml).unwrap();
    true.ser_as_body(&mut xml).unwrap();
    Some(3i8).ser_as_body(&mut xml).unwrap();
    None::<i8>.ser_as_text(&mut xml).unwrap();
    assert_eq!(s, "12&lt;true3");
}

#[test]
fn an_element_and_an_attribute_of_any_value() {
    let mut s = String::new();
    let mut xml = XmlBuilder::new(&mut s);
    ser_element(&5u8, &mut xml, "n").unwrap();
    xml.tag_open_start("e").unwrap();
    ser_attribute("a\"b", &mut xml, "k").unwrap();
    xml.tag_selfclose().unwrap();
    assert_eq!(s, "<n>5</n><e k=\"a&quot;b\"/>");
}

#[test]
fn a_leaf_is_read_from_an_element() {
    fn leaf<'a, T: DeXml<'a>>(input: &'a str) -> Result<T, XmlError> {
        let mut parser = XmlParser::new(input)?;
        parser.tag_open_start("x")?;
        let value = T::de_xml(&mut parser)?;
        parser.check_end()?;
        Ok(value)
    }
    assert_eq!(leaf::<u8>("<x>42</x>"), Ok(42));
    assert_eq!(leaf::<i64>("<x> -42</x>"), Ok(-42));
    assert_eq!(leaf::<bool>("<x>true</y>"), Ok(true));
    assert_eq!(leaf::<String>("<x>a&lt;b </x>"), Ok(String::from("a<b ")));
    assert_eq!(leaf::<String>("<x>  a</x>"), Ok(String::from("a")));
    assert_eq!(leaf::<u8>("<x>256</x>"), Err(XmlError::InvalidValue));
    assert_eq!(leaf::<u8>("<x>4 2</x>"), Err(XmlError::InvalidValue));
    assert_eq!(leaf::<u8>("<x k=\"v\">42</x>"), Err(XmlError::UnexpectedToken));
    assert_eq!(leaf::<String>("<x></x>"), Ok(String::new()));
    assert_eq!(leaf::<String>("<x/>"), Ok(String::new()));
    assert_eq!(leaf::<String>("<x>  </x>"), Ok(String::new()));
    assert_eq!(leaf::<u8>("<x></x>"), Err(XmlError::InvalidValue));
    assert_eq!(leaf::<bool>("<x/>"), Err(XmlError::InvalidValue));
    assert_eq!(leaf::<String>("<x><y/></x>"), Err(XmlError::UnexpectedToken));
    assert_eq!(leaf::<String>("<x>"), Err(XmlError::UnexpectedEof));
    assert_eq!(leaf::<String>("<x>a<y/></x>"), Err(XmlError::UnexpectedToken));
    assert_eq!(leaf::<String>("<x>a"), Err(XmlError::UnexpectedEof));
    assert_eq!(leaf::<u8>("<x>q</x>x"), Err(XmlError::InvalidValue));
    assert_eq!(leaf::<u8>("<x>1</x>x"), Err(XmlError::TrailingChars));
}

#[test]
fn a_fixed_size_sequence_takes_exactly_its_size() {
    fn gather<'a>(input: &'a str) -> Result<[u8; 2], XmlError> {
        let mut parser = XmlParser::new(input)?;
        let mut items = <[u8; 2] as DeXmlSeq>::new_seq();
        while let Some(_) = parser.next_token()? {
            <[u8; 2] as DeXmlSeq>::push_item(&mut items, &mut parser)?;
        }
        <[u8; 2] as DeXmlSeq>::finish(items)
    }
    assert_eq!(gather("<x>1</x><x>2</x>"), Ok([1, 2]));
    assert_eq!(gather("<x>2</x><x>1</x>"), Ok([2, 1]));
    assert_eq!(gather("<x>1</x>"), Err(XmlError::SeqUnderflow));
    assert_eq!(gather(""), Err(XmlError::SeqUnderflow));
    assert_eq!(gather("<x>1</x><x>2</x><x>3</x>"), Err(XmlError::SeqOverflow));
    assert_eq!(gather("<x>1</x><x>2</x><x>oops</x>"), Err(XmlError::SeqOverflow));
    assert_eq!(gather("<x>1</x><x>oops</x>"), Err(XmlError::InvalidValue));

    let mut parser = XmlParser::new("<x>1</x><x>2</x><x>3</x>").unwrap();
    let mut items = <[u8; 2] as DeXmlSeq>::new_seq();
    for _ in 0..2 {
        parser.tag_open_start("x").unwrap();
        <[u8; 2] as DeXmlSeq>::push_item(&mut items, &mut parser).unwrap();
    }
    parser.tag_open_start("x").unwrap();
    let before = parser.offset();
    assert_eq!(
        <[u8; 2] as DeXmlSeq>::push_item(&mut items, &mut parser),
        Err(XmlError::SeqOverflow)
    );
    assert_eq!(parser.offset(), before);
    assert_eq!(items, vec![1, 2]);
    assert_eq!(<u8 as DeXml>::de_xml(&mut parser), Ok(3));
    assert_eq!(<[u8; 0] as DeXmlSeq>::finish(Vec::new()), Ok([]));
}

#[test]
fn a_growing_sequence_keeps_what_it_held_on_failure() {
    let mut parser = XmlParser::new("<x>1</x><x>oops</x><x>3</x>").unwrap();
    let mut items = <Vec<u8> as DeXmlSeq>::new_seq();
    parser.tag_open_start("x").unwrap();
    assert_eq!(<Vec<u8> as DeXmlSeq>::push_item(&mut items, &mut parser), Ok(()));
    parser.tag_open_start("x").unwrap();
    assert_eq!(
        <Vec<u8> as DeXmlSeq>::push_item(&mut items, &mut parser),
        Err(XmlError::InvalidValue)
    );
    assert_eq!(items, vec![1]);
    assert_eq!(<Vec<u8> as DeXmlSeq>::finish(items), Ok(vec![1]));
}

#[test]
fn helpers_on_strings() {
    assert!(str_eq("äb", "äb"));
    assert!(!str_eq("äb", "ab"));
    assert!(!str_eq("a", "ab"));
    assert!(str_eq("", ""));
    assert_eq!(split_first("äb"), Some(('ä', "b")));
    assert_eq!(split_first("𝄞"), Some(('𝄞', "")));
    assert_eq!(split_first("€x"), Some(('€', "x")));
    assert_eq!(split_first("a€"), Some(('a', "€")));
    assert_eq!(split_first(""), None);
}
