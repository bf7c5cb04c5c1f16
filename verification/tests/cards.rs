use mates::item::{Item, PropertyValue};
use mates::parse::{parse_item, ParseError};
use mates::serialize::serialize;

fn parse_str(s: &str) -> Result<Item, ParseError> {
    parse_item(&s.as_bytes().to_vec())
}

#[test]
fn test_wikipedia_1() {
    let item = parse_str(
        "BEGIN:VCARD\n\
        VERSION:2.1\n\
        N:Mustermann;Erika\n\
        FN:Erika Mustermann\n\
        ORG:Wikipedia\n\
        TITLE:Oberleutnant\n\
        PHOTO;JPEG:http://commons.wikimedia.org/wiki/File:Erika_Mustermann_2010.jpg\n\
        TEL;WORK;VOICE:(0221) 9999123\n\
        TEL;HOME;VOICE:(0221) 1234567\n\
        ADR;HOME:;;Heidestrasse 17;Koeln;;51147;Deutschland\n\
        EMAIL;PREF;INTERNET:erika@mustermann.de\n\
        REV:20140301T221110Z\n\
        END:VCARD",
    )
    .unwrap();

    assert_eq!(
        item.single_value(&b"FN".to_vec()),
        Some(b"Erika Mustermann".to_vec())
    );
    assert_eq!(
        item.single_value(&b"N".to_vec()),
        Some(b"Mustermann;Erika".to_vec())
    );
}

#[test]
fn test_parse_empty_card() {
    let item = parse_str("").unwrap();
    assert_eq!(item.name, b"VCARD".to_vec());
    assert_eq!(item.props.len(), 0);
}

#[test]
fn test_parse_line_folding() {
    let item = parse_str("BEGIN:VCARD\nADR:Street 1;\n City\nEND:VCARD").unwrap();
    assert_eq!(
        item.single_value(&b"ADR".to_vec()),
        Some(b"Street 1;City".to_vec())
    );
}

#[test]
fn test_parse_tab_folding_and_params() {
    let item = parse_str("BEGIN:VCARD\nTEL;TYPE=WORK:123\n\t456\nEND:VCARD").unwrap();
    let tels = item.all_values(&b"TEL".to_vec());
    assert_eq!(tels.len(), 1);
    assert_eq!(tels[0].get_raw_params(), &b"TYPE=WORK".to_vec());
    assert_eq!(tels[0].get_raw_value(), &b"123456".to_vec());
}

#[test]
fn test_parse_unescapes_values() {
    let item = parse_str("BEGIN:VCARD\nNOTE:a\\,b\\;c\\\\d\\ne\nEND:VCARD").unwrap();
    assert_eq!(item.single_value(&b"NOTE".to_vec()), Some(b"a,b;c\\d\ne".to_vec()));
}

#[test]
fn test_serialize_exact() {
    let mut item = Item::new();
    item.push(PropertyValue::new(b"FN".to_vec(), Vec::new(), b"Erika".to_vec()));
    item.push(PropertyValue::new(
        b"EMAIL".to_vec(),
        b"TYPE=WORK".to_vec(),
        b"e@x.com".to_vec(),
    ));
    item.push(PropertyValue::new(b"NOTE".to_vec(), Vec::new(), b"a,b;c\\d\ne".to_vec()));
    let out = serialize(&item);
    assert_eq!(
        String::from_utf8(out).unwrap(),
        "BEGIN:VCARD\nFN:Erika\nEMAIL;TYPE=WORK:e@x.com\nNOTE:a\\,b\\;c\\\\d\\ne\nEND:VCARD\n"
    );
}

#[test]
fn test_roundtrip_properties() {
    let mut item = Item::new();
    item.push(PropertyValue::new(b"FN".to_vec(), Vec::new(), b"Erika Mustermann".to_vec()));
    item.push(PropertyValue::new(
        b"EMAIL".to_vec(),
        b"TYPE=HOME".to_vec(),
        b"erika@example.com".to_vec(),
    ));
    item.push(PropertyValue::new(b"EMAIL".to_vec(), Vec::new(), b"e2@example.com".to_vec()));
    item.push(PropertyValue::new(
        b"NOTE".to_vec(),
        Vec::new(),
        b"line one\nline two, with; specials \\ here:colon".to_vec(),
    ));
    let out = serialize(&item);
    let back = parse_item(&out).unwrap();
    assert_eq!(back.name, item.name);
    assert_eq!(back.props.len(), item.props.len());
    for (a, b) in back.props.iter().zip(item.props.iter()) {
        assert_eq!(a.name, b.name);
        assert_eq!(a.params, b.params);
        assert_eq!(a.value, b.value);
    }
}

#[test]
fn test_roundtrip_empty_item() {
    let item = Item::new();
    let out = serialize(&item);
    assert_eq!(String::from_utf8(out.clone()).unwrap(), "BEGIN:VCARD\nEND:VCARD\n");
    let back = parse_item(&out).unwrap();
    assert_eq!(back.name, b"VCARD".to_vec());
    assert_eq!(back.props.len(), 0);
}

#[test]
fn test_parse_no_colon() {
    assert!(matches!(
        parse_str("BEGIN:VCARD\nFN Erika\nEND:VCARD"),
        Err(ParseError::NoColon)
    ));
}

#[test]
fn test_parse_empty_name() {
    assert!(matches!(
        parse_str("BEGIN:VCARD\n:value\nEND:VCARD"),
        Err(ParseError::EmptyName)
    ));
}

#[test]
fn test_parse_continuation_at_start() {
    assert!(matches!(
        parse_str(" FN:Erika"),
        Err(ParseError::ContinuationAtStart)
    ));
}

#[test]
fn test_parse_missing_begin() {
    assert!(matches!(
        parse_str("FN:Erika"),
        Err(ParseError::UnexpectedComponent)
    ));
}

#[test]
fn test_parse_mismatched_end() {
    assert!(matches!(
        parse_str("BEGIN:VCARD\nFN:Erika\nEND:VCALENDAR"),
        Err(ParseError::UnexpectedComponent)
    ));
}

#[test]
fn test_parse_missing_end() {
    assert!(matches!(
        parse_str("BEGIN:VCARD\nFN:Erika"),
        Err(ParseError::UnexpectedComponent)
    ));
}

#[test]
fn test_parse_nested_component_refused() {
    assert!(matches!(
        parse_str("BEGIN:VCARD\nBEGIN:VCARD\nEND:VCARD\nEND:VCARD"),
        Err(ParseError::UnexpectedComponent)
    ));
}

#[test]
fn test_parse_crlf_and_cr_terminators() {
    let item = parse_str("BEGIN:VCARD\r\nFN:Erika\rEND:VCARD\r\n").unwrap();
    assert_eq!(item.single_value(&b"FN".to_vec()), Some(b"Erika".to_vec()));
}

#[test]
fn test_parse_unicode_line_separators() {
    let mut text = b"BEGIN:VCARD".to_vec();
    text.extend_from_slice("\u{2028}".as_bytes());
    text.extend_from_slice(b"FN:Erika");
    text.extend_from_slice("\u{2029}".as_bytes());
    text.extend_from_slice(b"END:VCARD");
    let item = parse_item(&text).unwrap();
    assert_eq!(item.single_value(&b"FN".to_vec()), Some(b"Erika".to_vec()));
}

#[test]
fn test_parse_blank_lines_skipped() {
    let item = parse_str("\nBEGIN:VCARD\n\nFN:Erika\n\nEND:VCARD\n\n").unwrap();
    assert_eq!(item.single_value(&b"FN".to_vec()), Some(b"Erika".to_vec()));
}

#[test]
fn test_parse_component_name_kept() {
    let item = parse_str("BEGIN:VCALENDAR\nX:1\nEND:VCALENDAR").unwrap();
    assert_eq!(item.name, b"VCALENDAR".to_vec());
}

#[test]
fn test_roundtrip_trailing_backslash_value() {
    let mut item = Item::new();
    item.push(PropertyValue::new(b"NOTE".to_vec(), Vec::new(), b"ends with \\".to_vec()));
    let back = parse_item(&serialize(&item)).unwrap();
    assert_eq!(back.single_value(&b"NOTE".to_vec()), Some(b"ends with \\".to_vec()));
}

#[test]
fn test_roundtrip_empty_value() {
    let mut item = Item::new();
    item.push(PropertyValue::new(b"NOTE".to_vec(), Vec::new(), Vec::new()));
    let out = serialize(&item);
    assert_eq!(String::from_utf8(out.clone()).unwrap(), "BEGIN:VCARD\nNOTE:\nEND:VCARD\n");
    let back = parse_item(&out).unwrap();
    assert_eq!(back.single_value(&b"NOTE".to_vec()), Some(Vec::new()));
}

#[test]
fn test_roundtrip_multibyte_value() {
    let mut item = Item::new();
    item.push(PropertyValue::new(
        b"ADR".to_vec(),
        Vec::new(),
        "Heidestraße 17, Köln".as_bytes().to_vec(),
    ));
    let back = parse_item(&serialize(&item)).unwrap();
    assert_eq!(
        back.single_value(&b"ADR".to_vec()),
        Some("Heidestraße 17, Köln".as_bytes().to_vec())
    );
}

#[test]
fn test_parse_colon_in_value() {
    let item = parse_str("BEGIN:VCARD\nURL:http://example.com:80/x\nEND:VCARD").unwrap();
    assert_eq!(
        item.single_value(&b"URL".to_vec()),
        Some(b"http://example.com:80/x".to_vec())
    );
}

#[test]
fn test_item_all_values_mut_removes() {
    let mut item = Item::new();
    item.push(PropertyValue::new(b"TEL".to_vec(), Vec::new(), b"1".to_vec()));
    item.push(PropertyValue::new(b"FN".to_vec(), Vec::new(), b"n".to_vec()));
    item.push(PropertyValue::new(b"TEL".to_vec(), Vec::new(), b"2".to_vec()));
    let taken = item.all_values_mut(&b"TEL".to_vec());
    assert_eq!(taken.len(), 2);
    assert_eq!(taken[0].get_raw_value(), &b"1".to_vec());
    assert_eq!(taken[1].get_raw_value(), &b"2".to_vec());
    assert_eq!(item.props.len(), 1);
    assert_eq!(item.single_value(&b"TEL".to_vec()), None);
    assert_eq!(item.single_value(&b"FN".to_vec()), Some(b"n".to_vec()));
}
