use nanoxml::de::{XmlError, XmlParser, XmlStr};
use nanoxml::derive::de::{DeXml, DeXmlAttr, DeXmlSeq, DeXmlTopLevel};
use nanoxml::derive::ser::{ser_element, RawXml, SerXml, SerXmlAsAttr, SerXmlTopLevel};
use nanoxml::ser::{FmtResult, XmlBuilder};
use std::borrow::Cow;

#[derive(Debug, PartialEq)]
enum Role {
    User,
    Moderator,
    Admin,
}

impl SerXml for Role {
    fn ser_body(&self, xml: &mut XmlBuilder<'_>) -> FmtResult {
        xml.text(match self {
            Role::User => "user",
            Role::Moderator => "mod",
            Role::Admin => "admin",
        })
    }

    fn ser_attrs(&self, _xml: &mut XmlBuilder<'_>) -> FmtResult {
        Ok(())
    }

    fn ser_xml(&self, xml: &mut XmlBuilder<'_>, tag_name: &str) -> FmtResult {
        ser_element(self, xml, tag_name)
    }
}

impl<'a> DeXmlAttr<'a> for Role {
    fn de_xml_attr(s: XmlStr<'a>) -> Result<Self, XmlError> {
        match s.raw() {
            "user" => Ok(Role::User),
            "mod" => Ok(Role::Moderator),
            "admin" => Ok(Role::Admin),
            _ => Err(XmlError::InvalidVariant),
        }
    }
}

#[derive(Debug, PartialEq)]
struct Id {
    id: u64,
}

impl SerXml for Id {
    fn ser_body(&self, xml: &mut XmlBuilder<'_>) -> FmtResult {
        self.id.ser_as_text(xml)
    }

    fn ser_attrs(&self, _xml: &mut XmlBuilder<'_>) -> FmtResult {
        Ok(())
    }

    fn ser_xml(&self, xml: &mut XmlBuilder<'_>, tag_name: &str) -> FmtResult {
        ser_element(self, xml, tag_name)
    }
}

impl<'a> DeXml<'a> for Id {
    fn de_xml(parser: &mut XmlParser<'a>) -> Result<Self, XmlError> {
        while let Ok((_key, _value)) = parser.attr_or_tag_open_end()? {
            return Err(XmlError::InvalidField);
        }
        let id = DeXmlAttr::de_xml_attr(parser.text()?)?;
        parser.tag_close("")?;
        Ok(Self { id })
    }
}

#[derive(Debug, PartialEq)]
struct Ipv4Addr([u8; 4]);

impl Ipv4Addr {
    fn new(a: u8, b: u8, c: u8, d: u8) -> Self {
        Self([a, b, c, d])
    }
}

impl SerXml for Ipv4Addr {
    fn ser_body(&self, xml: &mut XmlBuilder<'_>) -> FmtResult {
        let [a, b, c, d] = self.0;
        xml.write_str(&format!("{a}.{b}.{c}.{d}"))
    }

    fn ser_attrs(&self, _xml: &mut XmlBuilder<'_>) -> FmtResult {
        Ok(())
    }

    fn ser_xml(&self, xml: &mut XmlBuilder<'_>, tag_name: &str) -> FmtResult {
        ser_element(self, xml, tag_name)
    }
}

impl<'a> DeXmlAttr<'a> for Ipv4Addr {
    fn de_xml_attr(s: XmlStr<'a>) -> Result<Self, XmlError> {
        let mut parts = [0u8; 4];
        let mut seen = 0;
        for part in s.raw().split('.') {
            if seen == 4 {
                return Err(XmlError::InvalidValue);
            }
            parts[seen] = <u8 as DeXmlAttr>::de_xml_attr(XmlStr::new(part))?;
            seen += 1;
        }
        if seen == 4 {
            Ok(Self(parts))
        } else {
            Err(XmlError::InvalidValue)
        }
    }
}

#[derive(Debug, PartialEq)]
struct User {
    id: Id,
    name: String,
    display_name: String,
    password: String,
    foo: Option<String>,
    bar: Option<String>,
    baz: Option<String>,
    qux: Option<String>,
    multi: Vec<i32>,
    ip: Ipv4Addr,
    role: Role,
    skip: i32,
    empty: String,
}

impl SerXml for User {
    fn ser_body(&self, xml: &mut XmlBuilder<'_>) -> FmtResult {
        self.id.ser_xml(xml, "id")?;
        self.password.ser_xml(xml, "pass")?;
        self.foo.ser_xml(xml, "foo")?;
        self.bar.ser_xml(xml, "bar")?;
        self.multi.ser_xml(xml, "multi")?;
        self.ip.ser_xml(xml, "ip")?;
        self.role.ser_xml(xml, "role")?;
        self.empty.ser_xml(xml, "empty")?;
        Ok(())
    }

    fn ser_attrs(&self, xml: &mut XmlBuilder<'_>) -> FmtResult {
        self.name.ser_as_attr(xml, "name")?;
        self.display_name.ser_as_attr(xml, "dname")?;
        self.baz.ser_as_attr(xml, "baz")?;
        self.qux.ser_as_attr(xml, "qux")?;
        Ok(())
    }

    fn ser_xml(&self, xml: &mut XmlBuilder<'_>, tag_name: &str) -> FmtResult {
        ser_element(self, xml, tag_name)
    }
}

impl SerXmlTopLevel for User {
    const TAG_NAME: &'static str = "user";
}

fn fourtytwo() -> i32 {
    42
}

fn once<T>(slot: &mut Option<T>, value: T) -> Result<(), XmlError> {
    if slot.is_some() {
        return Err(XmlError::DuplicateField);
    }
    *slot = Some(value);
    Ok(())
}

impl<'a> DeXml<'a> for User {
    fn de_xml(parser: &mut XmlParser<'a>) -> Result<Self, XmlError> {
        let mut id = None;
        let mut name = None;
        let mut display_name = None;
        let mut password = None;
        let mut foo = None;
        let mut bar = None;
        let mut baz = None;
        let mut qux = None;
        let mut multi = <Vec<i32> as DeXmlSeq>::new_seq();
        let mut ip = None;
        let mut role = None;
        let skip: Option<i32> = None;
        let mut empty = None;
        while let Ok((key, value)) = parser.attr_or_tag_open_end()? {
            match key {
                "name" => once(&mut name, DeXmlAttr::de_xml_attr(value)?)?,
                "dname" => once(&mut display_name, DeXmlAttr::de_xml_attr(value)?)?,
                "baz" => once(&mut baz, DeXmlAttr::de_xml_attr(value)?)?,
                "qux" => once(&mut qux, DeXmlAttr::de_xml_attr(value)?)?,
                _ => return Err(XmlError::InvalidField),
            }
        }
        while let Ok(tag) = parser.tag_open_or_close("")? {
            match tag {
                "id" => once(&mut id, DeXml::de_xml(parser)?)?,
                "pass" => once(&mut password, DeXml::de_xml(parser)?)?,
                "foo" => once(&mut foo, DeXml::de_xml(parser)?)?,
                "bar" => once(&mut bar, DeXml::de_xml(parser)?)?,
                "multi" => <Vec<i32> as DeXmlSeq>::push_item(&mut multi, parser)?,
                "ip" => once(&mut ip, DeXml::de_xml(parser)?)?,
                "role" => once(&mut role, DeXml::de_xml(parser)?)?,
                "empty" => once(&mut empty, DeXml::de_xml(parser)?)?,
                _ => return Err(XmlError::InvalidField),
            }
        }
        Ok(Self {
            id: id.ok_or(XmlError::MissingField)?,
            name: name.ok_or(XmlError::MissingField)?,
            display_name: display_name.ok_or(XmlError::MissingField)?,
            password: password.ok_or(XmlError::MissingField)?,
            foo,
            bar,
            baz,
            qux,
            multi: <Vec<i32> as DeXmlSeq>::finish(multi)?,
            ip: ip.ok_or(XmlError::MissingField)?,
            role: role.ok_or(XmlError::MissingField)?,
            skip: skip.unwrap_or_else(fourtytwo),
            empty: empty.ok_or(XmlError::MissingField)?,
        })
    }
}

impl<'a> DeXmlTopLevel<'a> for User {
    const TAG_NAME: &'static str = "user";
}

fn user() -> User {
    User {
        id: Id { id: 42 },
        name: String::from("admin"),
        display_name: String::from("Admin"),
        password: String::from("123456"),
        foo: None,
        bar: Some(String::from("123")),
        baz: None,
        qux: Some(String::from("456")),
        multi: vec![-1, 0, 1],
        ip: Ipv4Addr::new(192, 168, 0, 1),
        role: Role::Admin,
        skip: 42,
        empty: String::new(),
    }
}

const USER: &str = "<user name=\"admin\" dname=\"Admin\" qux=\"456\"><id>42</id><pass>123456</pass><bar>123</bar><multi>-1</multi><multi>0</multi><multi>1</multi><ip>192.168.0.1</ip><role>admin</role><empty></empty></user>";

#[test]
fn a_record_of_every_kind_of_field() {
    assert_eq!(user().serialize_to_string(), USER);
    let mut s = String::from("<!-- -->");
    user().serialize(&mut s).unwrap();
    assert_eq!(s, format!("<!-- -->{USER}"));
}

#[test]
fn a_record_is_read_back_equal() {
    assert_eq!(User::deserialize_str(USER), Ok(user()));
    let padded = format!("\n<?xml version=\"1.0\"?>\n  {USER}\n");
    assert_eq!(User::deserialize_str(&padded), Ok(user()));
}

#[test]
fn an_absent_field_is_read_back_absent() {
    let read = User::deserialize_str(USER).unwrap();
    assert_eq!(read.foo, None);
    assert_eq!(read.baz, None);
    assert!(!USER.contains("foo"));
    assert!(!USER.contains("baz"));
    assert_eq!(read.skip, 42);
}

#[test]
fn repeated_fields_keep_their_order() {
    let mut u = user();
    u.multi = vec![3, 1, 2, 1];
    let xml = u.serialize_to_string();
    assert!(xml.contains("<multi>3</multi><multi>1</multi><multi>2</multi><multi>1</multi>"));
    assert_eq!(User::deserialize_str(&xml).unwrap().multi, vec![3, 1, 2, 1]);
    u.multi = vec![];
    let xml = u.serialize_to_string();
    assert!(!xml.contains("multi"));
    assert_eq!(User::deserialize_str(&xml).unwrap().multi, Vec::<i32>::new());
}

#[test]
fn children_in_any_order() {
    let xml = "<user qux=\"456\" dname=\"Admin\" name=\"admin\"><multi>-1</multi><empty/><role>admin</role><multi>0</multi><bar>123</bar><ip>192.168.0.1</ip><pass>123456</pass><multi>1</multi><id>42</id></user>";
    assert_eq!(User::deserialize_str(xml), Ok(user()));
}

#[test]
fn what_a_record_refuses() {
    let cases = [
        (USER.replace(" name=\"admin\"", ""), XmlError::MissingField),
        (USER.replace("<id>42</id>", ""), XmlError::MissingField),
        (USER.replace("<role>admin</role>", ""), XmlError::MissingField),
        (USER.replace("<id>42</id>", "<id>42</id><id>43</id>"), XmlError::DuplicateField),
        (USER.replace(" qux=", " name=\"x\" qux="), XmlError::DuplicateField),
        (USER.replace("<bar>", "<bar>1</bar><bar>"), XmlError::DuplicateField),
        (USER.replace("<id>42</id>", "<idx>42</idx>"), XmlError::InvalidField),
        (USER.replace(" qux=", " quux="), XmlError::InvalidField),
        (USER.replace("<id>42</id>", "<id k=\"v\">42</id>"), XmlError::InvalidField),
        (USER.replace("admin</role>", "root</role>"), XmlError::InvalidVariant),
        (USER.replace("<id>42", "<id>-42"), XmlError::InvalidValue),
        (USER.replace("<multi>0", "<multi>zero"), XmlError::InvalidValue),
        (USER.replace("<user ", "<account "), XmlError::NameMismatch),
        (USER.replace("</user>", "</user>!"), XmlError::TrailingChars),
        (USER.replace("</user>", "</user><user/>"), XmlError::TrailingChars),
        (USER.replace("</user>", ""), XmlError::UnexpectedEof),
        (USER.replace("</pass>", "</pass"), XmlError::UnexpectedChar),
        (USER.replace("<pass>", "<>"), XmlError::InvalidIdentifier),
        (USER.replace("<pass>123456</pass>", "<pass><x/></pass>"), XmlError::UnexpectedToken),
        (USER.replace("168.0.1", "168.0"), XmlError::InvalidValue),
        (USER.replace("<empty></empty>", ""), XmlError::MissingField),
        (USER.replace("<user ", "text<user "), XmlError::UnexpectedToken),
        (String::new(), XmlError::UnexpectedEof),
    ];
    for (xml, error) in cases {
        assert_eq!(User::deserialize_str(&xml), Err(error), "{xml}");
    }
}

#[derive(Debug, PartialEq)]
struct Lifetimed<'a> {
    str: XmlStr<'a>,
    cow: Cow<'a, str>,
}

impl<'a> SerXml for Lifetimed<'a> {
    fn ser_body(&self, xml: &mut XmlBuilder<'_>) -> FmtResult {
        self.str.ser_xml(xml, "str")?;
        self.cow.ser_xml(xml, "cow")
    }

    fn ser_attrs(&self, _xml: &mut XmlBuilder<'_>) -> FmtResult {
        Ok(())
    }

    fn ser_xml(&self, xml: &mut XmlBuilder<'_>, tag_name: &str) -> FmtResult {
        ser_element(self, xml, tag_name)
    }
}

impl<'a> SerXmlTopLevel for Lifetimed<'a> {
    const TAG_NAME: &'static str = "Lifetimed";
}

impl<'a> DeXml<'a> for Lifetimed<'a> {
    fn de_xml(parser: &mut XmlParser<'a>) -> Result<Self, XmlError> {
        parser.tag_open_end()?;
        let mut str = None;
        let mut cow = None;
        while let Ok(tag) = parser.tag_open_or_close("")? {
            match tag {
                "str" => once(&mut str, DeXml::de_xml(parser)?)?,
                "cow" => once(&mut cow, DeXml::de_xml(parser)?)?,
                _ => return Err(XmlError::InvalidField),
            }
        }
        Ok(Self {
            str: str.ok_or(XmlError::MissingField)?,
            cow: cow.ok_or(XmlError::MissingField)?,
        })
    }
}

impl<'a> DeXmlTopLevel<'a> for Lifetimed<'a> {
    const TAG_NAME: &'static str = "Lifetimed";
}

#[test]
fn a_record_that_borrows_from_the_source() {
    let lifetimed_xml = "<Lifetimed><str>foo</str><cow>bar</cow></Lifetimed>";
    let lifetimed = Lifetimed::deserialize_str(lifetimed_xml).unwrap();
    assert_eq!(lifetimed.str, "foo");
    assert_eq!(lifetimed.cow, "bar");
    assert!(matches!(lifetimed.cow, Cow::Borrowed(_)));
    let xml_reconstructed = lifetimed.serialize_to_string();
    assert_eq!(lifetimed_xml, xml_reconstructed);
}

#[test]
fn derive() {
    let user = User {
        id: Id { id: 42 },
        name: String::from("admin"),
        display_name: String::from("Admin"),
        password: String::from("123456"),
        foo: None,
        bar: Some(String::from("123")),
        baz: None,
        qux: Some(String::from("456")),
        multi: vec![-1, 0, 1],
        ip: Ipv4Addr::new(192, 168, 0, 1),
        role: Role::Admin,
        skip: 42,
        empty: String::new(),
    };

    let xml = user.serialize_to_string();
    assert_eq!(
        xml,
        "<user name=\"admin\" dname=\"Admin\" qux=\"456\"><id>42</id><pass>123456</pass><bar>123</bar><multi>-1</multi><multi>0</multi><multi>1</multi><ip>192.168.0.1</ip><role>admin</role><empty></empty></user>"
    );

    let reconstructed = User::deserialize_str(&xml).unwrap();
    assert_eq!(user, reconstructed);

    let lifetimed_xml = "<Lifetimed><str>foo</str><cow>bar</cow></Lifetimed>";
    let lifetimed = Lifetimed::deserialize_str(lifetimed_xml).unwrap();
    assert_eq!(lifetimed.str, "foo");
    assert_eq!(lifetimed.cow, "bar");
    let xml_reconstructed = lifetimed.serialize_to_string();
    assert_eq!(lifetimed_xml, xml_reconstructed);

    let ser_only = SerOnly {
        text: String::from("<Foo>Bar&Baz</Foo>"),
        raw: String::from("<Foo>Bar&Baz</Foo>").into(),
    };
    let ser_only_xml = ser_only.serialize_to_string();
    assert_eq!(
        ser_only_xml,
        "<SerOnly><text>&lt;Foo&gt;Bar&amp;Baz&lt;/Foo&gt;</text><raw><Foo>Bar&Baz</Foo></raw></SerOnly>",
    );
}

struct SerOnly {
    text: String,
    raw: RawXml,
}

impl SerXml for SerOnly {
    fn ser_body(&self, xml: &mut XmlBuilder<'_>) -> FmtResult {
        self.text.ser_xml(xml, "text")?;
        self.raw.ser_xml(xml, "raw")
    }

    fn ser_attrs(&self, _xml: &mut XmlBuilder<'_>) -> FmtResult {
        Ok(())
    }

    fn ser_xml(&self, xml: &mut XmlBuilder<'_>, tag_name: &str) -> FmtResult {
        ser_element(self, xml, tag_name)
    }
}

impl SerXmlTopLevel for SerOnly {
    const TAG_NAME: &'static str = "SerOnly";
}

#[test]
fn escaped_text_beside_raw_markup() {
    let ser_only = SerOnly {
        text: String::from("<Foo>Bar&Baz</Foo>"),
        raw: String::from("<Foo>Bar&Baz</Foo>").into(),
    };
    let ser_only_xml = ser_only.serialize_to_string();
    assert_eq!(
        ser_only_xml,
        "<SerOnly><text>&lt;Foo&gt;Bar&amp;Baz&lt;/Foo&gt;</text><raw><Foo>Bar&Baz</Foo></raw></SerOnly>",
    );
}
