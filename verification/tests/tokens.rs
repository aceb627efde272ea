use nanoxml::de::{skip_xml_header, XmlError, XmlParser, XmlToken};

fn kinds(input: &str) -> Vec<String> {
    let mut parser = XmlParser::new(input).unwrap();
    let mut out = Vec::new();
    loop {
        match parser.next_token() {
            Ok(Some(XmlToken::TagOpenStart(name))) => out.push(format!("open:{name}")),
            Ok(Some(XmlToken::TagOpenEnd)) => out.push(String::from("end")),
            Ok(Some(XmlToken::TagClose(name))) => out.push(format!("close:{name}")),
            Ok(Some(XmlToken::Attribute(key, value))) => {
                out.push(format!("attr:{key}={}", value.raw()))
            }
            Ok(Some(XmlToken::Text(text))) => out.push(format!("text:{}", text.raw())),
            Ok(None) => return out,
            Err(e) => {
                out.push(format!("error:{e:?}"));
                return out;
            }
        }
    }
}

#[test]
fn every_kind_of_token() {
    assert_eq!(
        kinds("<a k=\"v\" n:s=\"\"> x y <b-1_2/></a>"),
        vec![
            "open:a",
            "attr:k=v",
            "attr:n:s=",
            "end",
            "text:x y ",
            "open:b-1_2",
            "end",
            "close:",
            "close:a",
        ]
    );
}

#[test]
fn whitespace_between_tokens_is_skipped() {
    assert_eq!(
        kinds("<a \t\n\r\u{c} k=\"v\"\n>\n  <b>\n t</b >"),
        vec!["open:a", "attr:k=v", "end", "open:b", "end", "text:t", "error:UnexpectedChar"]
    );
}

#[test]
fn a_quote_always_ends_an_attribute_value() {
    assert_eq!(
        kinds("<a k=\"x&quot;y<z>\" >"),
        vec!["open:a", "attr:k=x&quot;y<z>", "end"]
    );
}

#[test]
fn text_runs_up_to_the_next_tag() {
    assert_eq!(kinds("<a>1 > 2 &amp; \"q\"</a>"), vec![
        "open:a",
        "end",
        "text:1 > 2 &amp; \"q\"",
        "close:a"
    ]);
}

#[test]
fn text_without_a_following_tag_is_cut_short() {
    assert_eq!(kinds("<a>text"), vec!["open:a", "end", "error:UnexpectedEof"]);
}

#[test]
fn a_tag_needs_a_name() {
    assert_eq!(kinds("<>"), vec!["error:InvalidIdentifier"]);
    assert_eq!(kinds("< a>"), vec!["error:InvalidIdentifier"]);
    assert_eq!(kinds("</>"), vec!["error:InvalidIdentifier"]);
    assert_eq!(kinds("<"), vec!["error:InvalidIdentifier"]);
    assert_eq!(kinds("<a ="), vec!["open:a", "error:InvalidIdentifier"]);
    assert_eq!(kinds("<é>"), vec!["error:InvalidIdentifier"]);
}

#[test]
fn a_closing_tag_ends_right_behind_its_name() {
    assert_eq!(kinds("</a"), vec!["error:UnexpectedEof"]);
    assert_eq!(kinds("</a b>"), vec!["error:UnexpectedChar"]);
    assert_eq!(kinds("</a>"), vec!["close:a"]);
}

#[test]
fn malformed_attributes() {
    assert_eq!(kinds("<a k"), vec!["open:a", "error:UnexpectedEof"]);
    assert_eq!(kinds("<a k>"), vec!["open:a", "error:UnexpectedChar"]);
    assert_eq!(kinds("<a k="), vec!["open:a", "error:UnexpectedEof"]);
    assert_eq!(kinds("<a k='v'>"), vec!["open:a", "error:UnexpectedChar"]);
    assert_eq!(kinds("<a k=v>"), vec!["open:a", "error:UnexpectedChar"]);
    assert_eq!(kinds("<a k=\"v"), vec!["open:a", "error:UnexpectedEof"]);
    assert_eq!(kinds("<a k =\"v\">"), vec!["open:a", "error:UnexpectedChar"]);
}

#[test]
fn a_slash_in_a_tag_must_close_it() {
    assert_eq!(kinds("<a/"), vec!["open:a", "error:UnexpectedEof"]);
    assert_eq!(kinds("<a/ >"), vec!["open:a", "error:UnexpectedChar"]);
    assert_eq!(kinds("<a />"), vec!["open:a", "end", "close:"]);
}

#[test]
fn a_slash_outside_a_tag_is_text() {
    assert_eq!(kinds("<a>/x<"), vec!["open:a", "end", "text:/x", "error:InvalidIdentifier"]);
}

#[test]
fn self_closed_and_empty_elements_read_alike() {
    let mut short = XmlParser::new("<empty/><next>").unwrap();
    let mut long = XmlParser::new("<empty></empty><next>").unwrap();
    for parser in [&mut short, &mut long] {
        parser.tag_open_start("empty").unwrap();
        parser.tag_open_end().unwrap();
        parser.tag_close("empty").unwrap();
        parser.tag_open_start("next").unwrap();
        parser.tag_open_end().unwrap();
        parser.check_end().unwrap();
    }
    let mut short = XmlParser::new("<empty/>").unwrap();
    let mut long = XmlParser::new("<empty></empty>").unwrap();
    for parser in [&mut short, &mut long] {
        parser.tag_open_start("empty").unwrap();
        parser.tag_open_end().unwrap();
        assert_eq!(parser.text_and_tag_close("empty").unwrap().raw(), "");
        parser.check_end().unwrap();
    }
}

#[test]
fn a_self_close_leaves_the_tag() {
    assert_eq!(
        kinds("<a><b/>x</a>"),
        vec!["open:a", "end", "open:b", "end", "close:", "text:x", "close:a"]
    );
    assert_eq!(
        kinds("<a><b></b>x</a>"),
        vec!["open:a", "end", "open:b", "end", "close:b", "text:x", "close:a"]
    );
    assert_eq!(
        kinds("<a k=\"v\"/>k=\"v\"<"),
        vec!["open:a", "attr:k=v", "end", "close:", "text:k=\"v\"", "error:InvalidIdentifier"]
    );
    assert_eq!(kinds("<a/>/>"), vec!["open:a", "end", "close:", "error:UnexpectedEof"]);
}

#[test]
fn the_cursor_only_advances() {
    for input in ["<a k=\"v\">t</a>", "<a k=v>", "<a>text", "<>", "</a b>", "<a/ >", "  "] {
        let mut parser = XmlParser::new(input).unwrap();
        let mut at = parser.offset();
        assert_eq!(at, 0);
        for _ in 0..8 {
            let _ = parser.next_token();
            assert!(at <= parser.offset() && parser.offset() <= input.trim().len());
            assert!(input.trim().is_char_boundary(parser.offset()));
            at = parser.offset();
        }
    }
    let mut parser = XmlParser::new("<a>é</a>").unwrap();
    parser.tag_open_start("a").unwrap();
    assert_eq!(parser.offset(), 2);
    parser.tag_open_end().unwrap();
    assert_eq!(parser.offset(), 3);
    parser.text().unwrap();
    assert_eq!(parser.offset(), 5);
    parser.tag_close("a").unwrap();
    assert_eq!(parser.offset(), 9);
}

#[test]
fn expected_names() {
    let mut parser = XmlParser::new("<b>").unwrap();
    assert_eq!(parser.tag_open_start("a"), Err(XmlError::NameMismatch));
    let mut parser = XmlParser::new("<a>").unwrap();
    assert_eq!(parser.tag_open_start("a"), Ok(()));
    let mut parser = XmlParser::new("<a>").unwrap();
    assert_eq!(parser.tag_open_start(""), Err(XmlError::NameMismatch));
    let mut parser = XmlParser::new("</b>").unwrap();
    assert_eq!(parser.tag_close("a"), Err(XmlError::NameMismatch));
    let mut parser = XmlParser::new("</b>").unwrap();
    assert_eq!(parser.tag_close("b"), Ok(()));
    let mut parser = XmlParser::new("</b>").unwrap();
    assert_eq!(parser.tag_close(""), Ok(()));
    let mut parser = XmlParser::new("<a/>").unwrap();
    parser.tag_open_start("a").unwrap();
    parser.tag_open_end().unwrap();
    assert_eq!(parser.tag_close("anything"), Ok(()));
}

#[test]
fn a_token_of_the_wrong_kind() {
    let mut parser = XmlParser::new("<a>").unwrap();
    assert_eq!(parser.tag_open_end(), Err(XmlError::UnexpectedToken));
    let mut parser = XmlParser::new("<a>").unwrap();
    assert_eq!(parser.tag_close("a"), Err(XmlError::UnexpectedToken));
    let mut parser = XmlParser::new("<a>").unwrap();
    assert!(matches!(parser.text(), Err(XmlError::UnexpectedToken)));
    let mut parser = XmlParser::new("<a>").unwrap();
    assert!(matches!(parser.attr(), Err(XmlError::UnexpectedToken)));
    let mut parser = XmlParser::new("</a>").unwrap();
    assert_eq!(parser.tag_open_start("a"), Err(XmlError::UnexpectedToken));
    let mut parser = XmlParser::new("</a>").unwrap();
    assert!(matches!(parser.attr_or_tag_open_end(), Err(XmlError::UnexpectedToken)));
    let mut parser = XmlParser::new(">").unwrap();
    assert!(matches!(parser.tag_open_or_close("a"), Err(XmlError::UnexpectedToken)));
    let mut parser = XmlParser::new(">").unwrap();
    assert!(matches!(parser.text_and_tag_close("a"), Err(XmlError::UnexpectedToken)));
}

#[test]
fn the_end_of_input_where_a_token_is_required() {
    let mut parser = XmlParser::new("").unwrap();
    assert_eq!(parser.tag_open_start("a"), Err(XmlError::UnexpectedEof));
    assert_eq!(parser.tag_open_end(), Err(XmlError::UnexpectedEof));
    assert_eq!(parser.tag_close(""), Err(XmlError::UnexpectedEof));
    assert!(matches!(parser.text(), Err(XmlError::UnexpectedEof)));
    assert!(matches!(parser.attr(), Err(XmlError::UnexpectedEof)));
    assert!(matches!(parser.attr_or_tag_open_end(), Err(XmlError::UnexpectedEof)));
    assert!(matches!(parser.tag_open_or_close(""), Err(XmlError::UnexpectedEof)));
    assert!(matches!(parser.text_and_tag_close(""), Err(XmlError::UnexpectedEof)));
    assert!(matches!(parser.next_token(), Ok(None)));
    assert_eq!(parser.check_end(), Ok(()));
}

#[test]
fn attributes_until_the_tag_ends() {
    let mut parser = XmlParser::new("<a x=\"1\" y=\"2\">").unwrap();
    parser.tag_open_start("a").unwrap();
    let (key, value) = parser.attr_or_tag_open_end().unwrap().unwrap();
    assert_eq!((key, value.raw()), ("x", "1"));
    let (key, value) = parser.attr().unwrap();
    assert_eq!((key, value.raw()), ("y", "2"));
    assert!(matches!(parser.attr_or_tag_open_end(), Ok(Err(()))));
}

#[test]
fn children_until_the_element_closes() {
    let mut parser = XmlParser::new("<a><b/><c></c></a>").unwrap();
    parser.tag_open_start("a").unwrap();
    parser.tag_open_end().unwrap();
    assert!(matches!(parser.tag_open_or_close("a"), Ok(Ok("b"))));
    parser.tag_open_end().unwrap();
    parser.tag_close("b").unwrap();
    assert!(matches!(parser.tag_open_or_close("a"), Ok(Ok("c"))));
    parser.tag_open_end().unwrap();
    assert!(matches!(parser.tag_open_or_close("c"), Ok(Err(()))));
    assert!(matches!(parser.tag_open_or_close("a"), Ok(Err(()))));
    parser.check_end().unwrap();

    let mut parser = XmlParser::new("</b>").unwrap();
    assert!(matches!(parser.tag_open_or_close("a"), Err(XmlError::NameMismatch)));
    let mut parser = XmlParser::new("</b>").unwrap();
    assert!(matches!(parser.tag_open_or_close(""), Ok(Err(()))));
}

#[test]
fn the_body_of_a_leaf() {
    let mut parser = XmlParser::new("<a>1&amp;2</a>").unwrap();
    parser.tag_open_start("a").unwrap();
    parser.tag_open_end().unwrap();
    let text = parser.text_and_tag_close("a").unwrap();
    assert_eq!(text.raw(), "1&amp;2");
    assert_eq!(text.owned(), "1&2");
    parser.check_end().unwrap();

    let mut parser = XmlParser::new("<a>x</b>").unwrap();
    parser.tag_open_start("a").unwrap();
    parser.tag_open_end().unwrap();
    assert!(matches!(parser.text_and_tag_close("a"), Err(XmlError::NameMismatch)));

    let mut parser = XmlParser::new("<a>x<b>").unwrap();
    parser.tag_open_start("a").unwrap();
    parser.tag_open_end().unwrap();
    assert!(matches!(parser.text_and_tag_close("a"), Err(XmlError::UnexpectedToken)));

    let mut parser = XmlParser::new("<a>x").unwrap();
    parser.tag_open_start("a").unwrap();
    parser.tag_open_end().unwrap();
    assert!(matches!(parser.text_and_tag_close("a"), Err(XmlError::UnexpectedEof)));
}

#[test]
fn raw_and_decoded_text() {
    let mut parser = XmlParser::new("<a>1&amp;2</a>").unwrap();
    parser.tag_open_start("a").unwrap();
    parser.tag_open_end().unwrap();
    let text = parser.text().unwrap();
    parser.tag_close("a").unwrap();
    assert_eq!(text.raw(), "1&amp;2");
    assert_eq!(text.parsed(), "1&2");
}

#[test]
fn nothing_but_whitespace_may_follow_the_root() {
    for tail in ["x", "<", "<b/>", "</a>", ">", "&", "\"", "é", "x<"] {
        let input = format!("<a/> \n{tail}");
        let mut parser = XmlParser::new(&input).unwrap();
        parser.tag_open_start("a").unwrap();
        parser.tag_open_end().unwrap();
        parser.tag_close("a").unwrap();
        assert_eq!(parser.check_end(), Err(XmlError::TrailingChars), "{tail}");
    }
    let mut parser = XmlParser::new("<a/> \n\t ").unwrap();
    parser.tag_open_start("a").unwrap();
    parser.tag_open_end().unwrap();
    assert_eq!(parser.check_end(), Err(XmlError::TrailingChars));
    assert_eq!(parser.check_end(), Ok(()));
}

#[test]
fn the_declaration_is_skipped() {
    assert_eq!(kinds("<?xml version=\"1.0\"?><a/>"), vec!["open:a", "end", "close:"]);
    assert_eq!(kinds(" \n<?xml?>\n<a/>"), vec!["open:a", "end", "close:"]);
    assert_eq!(skip_xml_header("<?xml version=\"1.0\"?><a/>"), Ok("<a/>"));
    assert_eq!(skip_xml_header("<?xml?>"), Ok(""));
    assert_eq!(skip_xml_header("<a/>"), Ok("<a/>"));
    assert_eq!(skip_xml_header("<?xm"), Ok("<?xm"));
    assert_eq!(skip_xml_header(""), Ok(""));
    assert_eq!(skip_xml_header(" <?xml?>"), Ok(" <?xml?>"));
    assert_eq!(skip_xml_header("<?xmlé?>ü"), Ok("ü"));
}

#[test]
fn the_declaration_ends_at_its_first_question_mark() {
    assert_eq!(skip_xml_header("<?xml version=\"1.0\""), Err(XmlError::UnexpectedEof));
    assert_eq!(skip_xml_header("<?xml"), Err(XmlError::UnexpectedEof));
    assert_eq!(skip_xml_header("<?xml ?"), Err(XmlError::UnexpectedEof));
    assert_eq!(skip_xml_header("<?xml ? >"), Err(XmlError::UnexpectedChar));
    assert_eq!(skip_xml_header("<?xml a=\"?\" ?>"), Err(XmlError::UnexpectedChar));
    assert!(matches!(XmlParser::new("<?xml ?<a/>"), Err(XmlError::UnexpectedChar)));
    assert!(matches!(XmlParser::new("  <?xml  "), Err(XmlError::UnexpectedEof)));
}

#[test]
fn unicode_whitespace_around_the_document_is_trimmed() {
    assert_eq!(
        kinds("\u{a0}\u{2003}\n<a/>\u{3000}\u{85}"),
        vec!["open:a", "end", "close:"]
    );
    assert_eq!(kinds("<a>\u{a0}x</a>"), vec!["open:a", "end", "text:\u{a0}x", "close:a"]);
}

#[test]
fn names_and_values_borrow_from_the_source() {
    let source = String::from("<tag key=\"välue\">tëxt</tag>");
    let mut parser = XmlParser::new(&source).unwrap();
    parser.tag_open_start("tag").unwrap();
    let (key, value) = parser.attr().unwrap();
    parser.tag_open_end().unwrap();
    let text = parser.text().unwrap();
    let range = source.as_bytes().as_ptr_range();
    for piece in [key, value.raw(), text.raw()] {
        assert!(range.contains(&piece.as_ptr()));
    }
    assert_eq!((key, value.raw(), text.raw()), ("key", "välue", "tëxt"));
}
