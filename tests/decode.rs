use xml_decode::decode::XmlDecodeError;
use xml_decode::node::XmlNode;

#[derive(Debug, PartialEq)]
struct SomeStruct {
    someint: u32,
    somestr: String,
    somevec: Vec<u32>,
    someopt: Option<u32>,
}

fn decode_some_struct(root: &XmlNode) -> Result<SomeStruct, XmlDecodeError> {
    root.read_struct("SomeStruct", 4)?;
    let someint = root.read_struct_field("someint", 0)?.read_u32()?;
    let somestr = root.read_struct_field("somestr", 1)?.read_str()?;
    let n = root.read_seq("somevec")?;
    let mut somevec = Vec::new();
    for i in 0..n {
        somevec.push(root.read_seq_elt("somevec", i)?.read_u32()?);
    }
    let someopt = match root.read_option("someopt")? {
        Some(c) => Some(c.read_u32()?),
        None => None,
    };
    Ok(SomeStruct { someint, somestr, somevec, someopt })
}

fn doc(s: &str) -> XmlNode {
    XmlNode::from_str(s).unwrap()
}

const FULL: &str = "<SomeStruct><someint>123</someint><somestr>a string</somestr><somevec>1</somevec><somevec>2</somevec><somevec>3</somevec><someopt>100</someopt></SomeStruct>";

#[test]
fn decodes_full_record() {
    let r = decode_some_struct(&doc(FULL)).unwrap();
    assert_eq!(
        r,
        SomeStruct { someint: 123, somestr: "a string".to_string(), somevec: vec![1, 2, 3], someopt: Some(100) }
    );
}

#[test]
fn decodes_record_with_declaration_and_layout() {
    let text = "<?xml version=\"1.0\"?>\n<SomeStruct>\n  <someint>123</someint>\n  <somestr>a string</somestr>\n  <somevec>1</somevec>\n  <somevec>2</somevec>\n  <somevec>3</somevec>\n  <someopt>100</someopt>\n</SomeStruct>\n";
    let root = doc(text);
    assert_eq!(root.text_rec(), "123a string123100");
    let r = decode_some_struct(&root).unwrap();
    assert_eq!(r.somevec, vec![1, 2, 3]);
    assert_eq!(r.someopt, Some(100));
}

#[test]
fn absent_option_decodes_as_none() {
    let text = "<SomeStruct><someint>123</someint><somestr>a string</somestr><somevec>1</somevec><somevec>2</somevec><somevec>3</somevec></SomeStruct>";
    let r = decode_some_struct(&doc(text)).unwrap();
    assert_eq!(r.someopt, None);
    assert_eq!(r.somevec, vec![1, 2, 3]);
}

#[test]
fn bad_integer_is_invalid_format_at_its_field() {
    let text = "<SomeStruct><someint>abc</someint><somestr>a string</somestr></SomeStruct>";
    let root = doc(text);
    let field = root.read_struct_field("someint", 0).unwrap();
    assert_eq!(field.read_u32(), Err(XmlDecodeError::InvalidFormat));
    assert_eq!(decode_some_struct(&root), Err(XmlDecodeError::InvalidFormat));
}

#[test]
fn wrong_root_name_is_invalid_format() {
    let root = doc("<Other><someint>1</someint></Other>");
    assert_eq!(root.read_struct("SomeStruct", 1), Err(XmlDecodeError::InvalidFormat));
    assert_eq!(root.read_struct("Other", 1), Ok(()));
    let t = XmlNode::Text("x".to_string());
    assert_eq!(t.read_struct("Other", 1), Err(XmlDecodeError::UnexpectedTag));
}

#[test]
fn reordered_fields_decode_the_same() {
    let text = "<SomeStruct><someopt>100</someopt><somevec>1</somevec><somestr>a string</somestr><somevec>2</somevec><someint>123</someint><somevec>3</somevec></SomeStruct>";
    let a = decode_some_struct(&doc(text)).unwrap();
    let b = decode_some_struct(&doc(FULL)).unwrap();
    assert_eq!(a, b);
}

#[test]
fn missing_required_field_is_invalid_format() {
    let root = doc("<R><a>1</a></R>");
    assert_eq!(root.read_struct_field("b", 0), Err(XmlDecodeError::InvalidFormat));
    assert_eq!(root.read_struct_field("a", 5).unwrap().read_u8(), Ok(1));
}

#[test]
fn sequence_counts_same_named_siblings() {
    let root = doc("<R><v>5</v><w>0</w><v>6</v></R>");
    assert_eq!(root.read_seq("v"), Ok(2));
    assert_eq!(root.read_seq_elt("v", 1).unwrap().read_u64(), Ok(6));
    assert_eq!(root.read_seq_elt("v", 2), Err(XmlDecodeError::InvalidFormat));
    assert_eq!(root.read_seq("none"), Ok(0));
}

#[test]
fn present_empty_option_is_present() {
    let root = doc("<R><o/></R>");
    let o = root.read_option("o").unwrap();
    assert!(o.is_some());
    assert_eq!(o.unwrap().read_str(), Ok(String::new()));
    assert_eq!(o.unwrap().read_u32(), Err(XmlDecodeError::InvalidFormat));
    assert_eq!(root.read_option("p"), Ok(None));
}

#[test]
fn unsigned_scalars_round_trip() {
    let t = |s: &str| XmlNode::Text(s.to_string());
    assert_eq!(t("18446744073709551615").read_u64(), Ok(u64::MAX));
    assert_eq!(t("18446744073709551616").read_u64(), Err(XmlDecodeError::InvalidFormat));
    assert_eq!(t("+7").read_u64(), Ok(7));
    assert_eq!(t("-7").read_u64(), Err(XmlDecodeError::InvalidFormat));
    assert_eq!(t("").read_u64(), Err(XmlDecodeError::InvalidFormat));
    assert_eq!(t("4294967295").read_u32(), Ok(u32::MAX));
    assert_eq!(t("4294967296").read_u32(), Ok(0));
    assert_eq!(t("65535").read_u16(), Ok(65535));
    assert_eq!(t("255").read_u8(), Ok(255));
    assert_eq!(t("256").read_u8(), Ok(0));
    assert_eq!(t("12").read_usize(), Ok(12));
}

#[test]
fn signed_scalars_round_trip() {
    let t = |s: &str| XmlNode::Text(s.to_string());
    assert_eq!(t("-9223372036854775808").read_i64(), Ok(i64::MIN));
    assert_eq!(t("9223372036854775807").read_i64(), Ok(i64::MAX));
    assert_eq!(t("9223372036854775808").read_i64(), Err(XmlDecodeError::InvalidFormat));
    assert_eq!(t("-9223372036854775809").read_i64(), Err(XmlDecodeError::InvalidFormat));
    assert_eq!(t("-5").read_i32(), Ok(-5));
    assert_eq!(t("-129").read_i8(), Ok(127));
    assert_eq!(t("-300").read_i16(), Ok(-300));
    assert_eq!(t("+3").read_isize(), Ok(3));
    assert_eq!(t("-").read_i64(), Err(XmlDecodeError::InvalidFormat));
}

#[test]
fn booleans_are_nonzero_bytes() {
    let t = |s: &str| XmlNode::Text(s.to_string());
    assert_eq!(t("1").read_bool(), Ok(true));
    assert_eq!(t("0").read_bool(), Ok(false));
    assert_eq!(t("true").read_bool(), Err(XmlDecodeError::InvalidFormat));
}

#[test]
fn chars_and_strings_round_trip() {
    let t = |s: &str| XmlNode::Text(s.to_string());
    assert_eq!(t("é").read_char(), Ok('é'));
    assert_eq!(t("ab").read_char(), Err(XmlDecodeError::InvalidFormat));
    assert_eq!(t(" a &b ").read_str(), Ok(" a &b ".to_string()));
    assert_eq!(doc("<a>x&amp;y</a>").read_str(), Ok("x&y".to_string()));
    assert_eq!(t("u").read_nil(), Ok(()));
}

#[test]
fn element_with_elements_is_no_scalar() {
    let root = doc("<a>1<b>2</b></a>");
    assert_eq!(root.read_u32(), Err(XmlDecodeError::UnexpectedTag));
    assert_eq!(root.read_str(), Ok("1".to_string()));
    assert_eq!(doc("<a><b>2</b></a>").read_str(), Err(XmlDecodeError::UnexpectedTag));
    assert_eq!(doc("<a></a>").read_str(), Ok(String::new()));
    assert_eq!(root.text(), "1");
    assert_eq!(root.text_rec(), "12");
}

#[test]
fn variant_matches_exact_name() {
    let root = doc("<Blue/>");
    assert_eq!(root.read_enum_variant(&["Red", "Blue"]), Ok(1));
    assert_eq!(root.read_enum_variant(&["blue", "Red"]), Err(XmlDecodeError::InvalidFormat));
    assert_eq!(root.read_enum_struct_variant(&["Blue", "Blue"]), Ok(0));
    let t = XmlNode::Text("Red".to_string());
    assert_eq!(t.read_enum_variant(&["Red", "Blue"]), Ok(0));
    assert_eq!(root.read_enum("Blue"), Ok(()));
    assert_eq!(root.read_enum("Red"), Err(XmlDecodeError::UnexpectedTag));
}

#[test]
fn variant_and_tuple_members_by_position() {
    let root = doc("<T><a>1</a><b>-2</b></T>");
    assert_eq!(root.read_tuple(2), Ok(()));
    assert_eq!(root.read_tuple(3), Err(XmlDecodeError::UnexpectedTag));
    assert_eq!(root.read_tuple_arg(1).unwrap().read_i8(), Ok(-2));
    assert_eq!(root.read_enum_variant_arg(0).unwrap().read_u8(), Ok(1));
    assert_eq!(root.read_tuple_struct_arg(2), Err(XmlDecodeError::UnexpectedTag));
    assert_eq!(root.read_tuple_struct("T", 2), Ok(()));
    assert_eq!(
        root.read_enum_struct_variant_field("b", 1).unwrap().read_i64(),
        Ok(-2)
    );
}

#[test]
fn map_entries_are_key_value_pairs() {
    let root = doc("<R><m><k>a</k><v>1</v></m><m><k>b</k><v>2</v></m><m><k>c</k></m></R>");
    assert_eq!(root.read_map("m"), Ok(3));
    assert_eq!(root.read_map_elt_key("m", 1).unwrap().read_str(), Ok("b".to_string()));
    assert_eq!(root.read_map_elt_val("m", 1).unwrap().read_u32(), Ok(2));
    assert_eq!(root.read_map_elt_key("m", 2), Err(XmlDecodeError::UnexpectedTag));
    assert_eq!(root.read_map_elt_val("m", 3), Err(XmlDecodeError::InvalidFormat));
}

#[test]
fn custom_error_keeps_message() {
    let root = XmlNode::empty();
    assert_eq!(root.error("bad value"), XmlDecodeError::CustomError("bad value".to_string()));
}

#[test]
fn parse_reads_generic_scalars() {
    let t = XmlNode::Text("42".to_string());
    assert_eq!(t.parse::<u64>(), Ok(42));
    assert_eq!(t.parse::<i64>(), Ok(42));
    assert_eq!(t.parse::<char>(), Err(XmlDecodeError::InvalidFormat));
}
