use ipp_parse::attribute::{
    is_header_attr, str_eq, IppAttribute, IppAttributeList, ATTRIBUTES_CHARSET, ATTRIBUTES_NATURAL_LANGUAGE, PRINTER_NAME,
    PRINTER_URI,
};
use ipp_parse::parser::{is_decided, list_to_value, IppParser, ParseError};
use ipp_parse::tag::DelimiterTag;
use ipp_parse::value::IppValue;

const HEADER: [u8; 8] = [1, 1, 0, 0x0b, 0, 0, 0, 7];

fn record(out: &mut Vec<u8>, tag: u8, name: &str, payload: &[u8]) {
    out.push(tag);
    out.extend_from_slice(&(name.len() as u16).to_be_bytes());
    out.extend_from_slice(name.as_bytes());
    out.extend_from_slice(&(payload.len() as u16).to_be_bytes());
    out.extend_from_slice(payload);
}

fn with_header(body: &[u8]) -> Vec<u8> {
    let mut v = HEADER.to_vec();
    v.extend_from_slice(body);
    v
}

fn text(s: &str) -> String {
    s.to_string()
}

#[test]
fn attribute_write_exact_bytes() {
    let a = IppAttribute::new("copies", IppValue::Integer(2));
    let mut buf = Vec::new();
    let n = a.write(&mut buf);
    let mut want = vec![0x21, 0, 6];
    want.extend_from_slice(b"copies");
    want.extend_from_slice(&[0, 4, 0, 0, 0, 2]);
    assert_eq!(buf, want);
    assert_eq!(n, 15);
}

#[test]
fn attribute_write_text_and_boolean() {
    let mut buf = Vec::new();
    IppAttribute::new("x", IppValue::Keyword(text("ab"))).write(&mut buf);
    IppAttribute::new("y", IppValue::Boolean(true)).write(&mut buf);
    assert_eq!(buf, vec![0x44, 0, 1, b'x', 0, 2, b'a', b'b', 0x22, 0, 1, b'y', 0, 1, 1]);
}

#[test]
fn attribute_write_negative_enum() {
    let mut buf = Vec::new();
    let n = IppAttribute::new("e", IppValue::Enum(-2)).write(&mut buf);
    assert_eq!(buf, vec![0x23, 0, 1, b'e', 0, 4, 0xff, 0xff, 0xff, 0xfe]);
    assert_eq!(n, 10);
}

#[test]
fn add_overwrites_within_group_only() {
    let mut l = IppAttributeList::new();
    l.add(DelimiterTag::JobAttributes, IppAttribute::new("job-id", IppValue::Integer(1)));
    l.add(DelimiterTag::JobAttributes, IppAttribute::new("job-id", IppValue::Integer(5)));
    l.add(DelimiterTag::PrinterAttributes, IppAttribute::new("job-id", IppValue::Integer(9)));
    assert_eq!(l.get(DelimiterTag::JobAttributes, "job-id").unwrap().value(), &IppValue::Integer(5));
    assert_eq!(l.get(DelimiterTag::PrinterAttributes, "job-id").unwrap().value(), &IppValue::Integer(9));
    assert_eq!(l.get_job_attributes().unwrap().len(), 1);
    assert!(l.get(DelimiterTag::OperationAttributes, "job-id").is_none());
    assert!(l.get(DelimiterTag::JobAttributes, "job-name").is_none());
    assert!(l.get_operation_attributes().is_none());
    assert!(l.get_group(DelimiterTag::UnsupportedAttributes).is_none());
}

#[test]
fn header_attributes_lead_in_fixed_order() {
    let mut l = IppAttributeList::new();
    let op = DelimiterTag::OperationAttributes;
    l.add(op, IppAttribute::new("requesting-user-name", IppValue::NameWithoutLanguage(text("u"))));
    l.add(op, IppAttribute::new(ATTRIBUTES_CHARSET, IppValue::Charset(text("utf-8"))));
    l.add(op, IppAttribute::new(PRINTER_URI, IppValue::Uri(text("ipp://x"))));
    l.add(op, IppAttribute::new(ATTRIBUTES_NATURAL_LANGUAGE, IppValue::NaturalLanguage(text("en"))));
    let mut buf = Vec::new();
    let n = l.write(&mut buf);
    let mut want = vec![0x01];
    record(&mut want, 0x47, ATTRIBUTES_CHARSET, b"utf-8");
    record(&mut want, 0x48, ATTRIBUTES_NATURAL_LANGUAGE, b"en");
    record(&mut want, 0x45, PRINTER_URI, b"ipp://x");
    record(&mut want, 0x42, "requesting-user-name", b"u");
    want.push(0x03);
    assert_eq!(buf, want);
    assert_eq!(n, want.len());
}

#[test]
fn empty_list_writes_two_delimiters() {
    let l = IppAttributeList::new();
    let mut buf = Vec::new();
    assert_eq!(l.write(&mut buf), 2);
    assert_eq!(buf, vec![0x01, 0x03]);
}

#[test]
fn groups_written_in_fixed_order() {
    let mut l = IppAttributeList::new();
    l.add(DelimiterTag::PrinterAttributes, IppAttribute::new("p", IppValue::Integer(1)));
    l.add(DelimiterTag::JobAttributes, IppAttribute::new("j", IppValue::Integer(2)));
    let mut buf = Vec::new();
    l.write(&mut buf);
    let mut want = vec![0x01, 0x02];
    record(&mut want, 0x21, "j", &[0, 0, 0, 2]);
    want.push(0x04);
    record(&mut want, 0x21, "p", &[0, 0, 0, 1]);
    want.push(0x03);
    assert_eq!(buf, want);
}

#[test]
fn round_trip_example_moves_last_attribute_of_a_group() {
    let mut l = IppAttributeList::new();
    let op = DelimiterTag::OperationAttributes;
    let pr = DelimiterTag::PrinterAttributes;
    l.add(op, IppAttribute::new(ATTRIBUTES_CHARSET, IppValue::Charset(text("utf-8"))));
    l.add(op, IppAttribute::new(PRINTER_URI, IppValue::Uri(text("ipp://x"))));
    l.add(pr, IppAttribute::new(PRINTER_NAME, IppValue::NameWithoutLanguage(text("p1"))));
    let mut buf = Vec::new();
    l.write(&mut buf);
    let mut p = IppParser::new(with_header(&buf));
    let res = p.parse().unwrap();
    assert_eq!(p.consumed(), 8 + buf.len());
    assert_eq!(res.header.request_id, 7);
    assert_eq!(res.header.operation_status, 0x0b);
    let a = &res.attributes;
    assert_eq!(a.get(op, ATTRIBUTES_CHARSET).unwrap().value(), &IppValue::Charset(text("utf-8")));
    assert_eq!(a.get(pr, PRINTER_NAME).unwrap().value(), &IppValue::NameWithoutLanguage(text("p1")));
    // The last operation attribute is flushed only once the printer group has begun.
    assert!(a.get(op, PRINTER_URI).is_none());
    assert_eq!(a.get(pr, PRINTER_URI).unwrap().value(), &IppValue::Uri(text("ipp://x")));
    assert_eq!(a.get_operation_attributes().unwrap().len(), 1);
    assert_eq!(a.get_printer_attributes().unwrap().len(), 2);
}

#[test]
fn round_trip_single_group() {
    let mut l = IppAttributeList::new();
    let job = DelimiterTag::JobAttributes;
    l.add(job, IppAttribute::new("job-id", IppValue::Integer(-40000)));
    l.add(job, IppAttribute::new("job-name", IppValue::NameWithoutLanguage(text("rapport été"))));
    l.add(job, IppAttribute::new("last-document", IppValue::Boolean(false)));
    l.add(job, IppAttribute::new("raw", IppValue::Other { tag: 0x30, data: vec![9, 8, 7] }));
    let mut buf = Vec::new();
    l.write(&mut buf);
    let res = IppParser::new(with_header(&buf)).parse().unwrap();
    let a = &res.attributes;
    assert_eq!(a.get(job, "job-id").unwrap().value(), &IppValue::Integer(-40000));
    assert_eq!(a.get(job, "job-name").unwrap().value(), &IppValue::NameWithoutLanguage(text("rapport été")));
    assert_eq!(a.get(job, "last-document").unwrap().value(), &IppValue::Boolean(false));
    assert_eq!(a.get(job, "raw").unwrap().value(), &IppValue::Other { tag: 0x30, data: vec![9, 8, 7] });
}

#[test]
fn single_value_decodes_to_scalar() {
    let mut body = vec![0x04];
    record(&mut body, 0x44, "sides-supported", b"one-sided");
    body.push(0x03);
    let res = IppParser::new(with_header(&body)).parse().unwrap();
    let v = res.attributes.get(DelimiterTag::PrinterAttributes, "sides-supported").unwrap().value();
    assert_eq!(v, &IppValue::Keyword(text("one-sided")));
}

#[test]
fn several_values_decode_to_list_in_order() {
    let mut body = vec![0x04];
    record(&mut body, 0x44, "sides-supported", b"one-sided");
    record(&mut body, 0x44, "", b"two-sided-long-edge");
    record(&mut body, 0x44, "", b"two-sided-short-edge");
    body.push(0x03);
    let res = IppParser::new(with_header(&body)).parse().unwrap();
    let v = res.attributes.get(DelimiterTag::PrinterAttributes, "sides-supported").unwrap().value();
    assert_eq!(
        v,
        &IppValue::ListOf(vec![
            IppValue::Keyword(text("one-sided")),
            IppValue::Keyword(text("two-sided-long-edge")),
            IppValue::Keyword(text("two-sided-short-edge")),
        ])
    );
}

#[test]
fn list_value_round_trips() {
    let mut l = IppAttributeList::new();
    let list = IppValue::ListOf(vec![IppValue::Integer(3), IppValue::Integer(4)]);
    l.add(DelimiterTag::PrinterAttributes, IppAttribute::new("copies-supported", list));
    let mut buf = Vec::new();
    l.write(&mut buf);
    let res = IppParser::new(with_header(&buf)).parse().unwrap();
    let v = res.attributes.get(DelimiterTag::PrinterAttributes, "copies-supported").unwrap().value();
    assert_eq!(v, &IppValue::ListOf(vec![IppValue::Integer(3), IppValue::Integer(4)]));
}

#[test]
fn collection_decodes_to_one_nested_value() {
    let mut body = vec![0x01];
    record(&mut body, 0x34, "media-col", b"");
    record(&mut body, 0x4a, "", b"media-type");
    record(&mut body, 0x44, "", b"stationery");
    record(&mut body, 0x4a, "", b"media-weight");
    record(&mut body, 0x21, "", &[0, 0, 0, 80]);
    record(&mut body, 0x37, "", b"");
    body.push(0x03);
    let res = IppParser::new(with_header(&body)).parse().unwrap();
    let v = res.attributes.get(DelimiterTag::OperationAttributes, "media-col").unwrap().value();
    assert_eq!(
        v,
        &IppValue::Collection(vec![
            IppValue::MemberAttrName(text("media-type")),
            IppValue::Keyword(text("stationery")),
            IppValue::MemberAttrName(text("media-weight")),
            IppValue::Integer(80),
        ])
    );
}

#[test]
fn collection_value_round_trips() {
    let col = IppValue::Collection(vec![
        IppValue::MemberAttrName(text("x-dimension")),
        IppValue::Integer(21000),
        IppValue::MemberAttrName(text("y-dimension")),
        IppValue::Integer(29700),
    ]);
    let mut l = IppAttributeList::new();
    l.add(DelimiterTag::JobAttributes, IppAttribute::new("media-size", col));
    let mut buf = Vec::new();
    l.write(&mut buf);
    let res = IppParser::new(with_header(&buf)).parse().unwrap();
    let v = res.attributes.get(DelimiterTag::JobAttributes, "media-size").unwrap().value();
    assert_eq!(
        v,
        &IppValue::Collection(vec![
            IppValue::MemberAttrName(text("x-dimension")),
            IppValue::Integer(21000),
            IppValue::MemberAttrName(text("y-dimension")),
            IppValue::Integer(29700),
        ])
    );
}

#[test]
fn empty_document_decodes_to_empty_list() {
    let mut p = IppParser::new(with_header(&[0x01, 0x03]));
    let res = p.parse().unwrap();
    assert!(res.attributes.get_operation_attributes().is_none());
    assert!(res.attributes.get_job_attributes().is_none());
    assert!(res.attributes.get_printer_attributes().is_none());
    assert_eq!(p.consumed(), 10);
}

#[test]
fn unknown_tag_fails_and_stops_there() {
    let mut body = vec![0x01];
    record(&mut body, 0x44, "a", b"b");
    let bad_at = body.len();
    body.push(0x55);
    body.extend_from_slice(&[0x03, 0x03, 0x03]);
    let mut p = IppParser::new(with_header(&body));
    assert_eq!(p.parse().unwrap_err(), ParseError::Tag(0x55));
    assert_eq!(p.consumed(), 8 + bad_at + 1);
}

#[test]
fn unassigned_delimiter_is_a_tag_error() {
    let mut p = IppParser::new(with_header(&[0x06, 0x03]));
    assert_eq!(p.parse().unwrap_err(), ParseError::Tag(6));
    assert_eq!(p.consumed(), 9);
}

#[test]
fn zero_byte_is_a_tag_error() {
    let mut p = IppParser::new(with_header(&[0x00]));
    assert_eq!(p.parse().unwrap_err(), ParseError::Tag(0));
}

#[test]
fn missing_end_marker_is_truncated() {
    let mut body = vec![0x01];
    record(&mut body, 0x21, "a", &[0, 0, 0, 1]);
    let mut p = IppParser::new(with_header(&body));
    assert_eq!(p.parse().unwrap_err(), ParseError::Truncated);
    let mut q = IppParser::new(vec![1, 1, 0]);
    assert_eq!(q.parse().unwrap_err(), ParseError::Truncated);
    assert_eq!(q.consumed(), 3);
}

#[test]
fn bad_integer_length_is_a_value_error() {
    let mut body = vec![0x01];
    record(&mut body, 0x21, "a", &[0, 1]);
    body.push(0x03);
    assert_eq!(IppParser::new(with_header(&body)).parse().unwrap_err(), ParseError::Value(0x21));
}

#[test]
fn invalid_utf8_is_rejected() {
    let mut body = vec![0x01];
    body.extend_from_slice(&[0x44, 0, 1, 0xff, 0, 0]);
    body.push(0x03);
    assert_eq!(IppParser::new(with_header(&body)).parse().unwrap_err(), ParseError::Name);
    let mut body2 = vec![0x01];
    record(&mut body2, 0x44, "k", &[0xc3]);
    body2.push(0x03);
    assert_eq!(IppParser::new(with_header(&body2)).parse().unwrap_err(), ParseError::Value(0x44));
}

#[test]
fn value_before_any_group_lands_under_end_marker() {
    let mut body = Vec::new();
    record(&mut body, 0x21, "a", &[0, 0, 0, 1]);
    body.push(0x03);
    let res = IppParser::new(with_header(&body)).parse().unwrap();
    assert_eq!(res.attributes.get(DelimiterTag::EndOfAttributes, "a").unwrap().value(), &IppValue::Integer(1));
}

#[test]
fn collapse_keeps_single_and_lists_others() {
    assert_eq!(list_to_value(vec![IppValue::Integer(1)]), IppValue::Integer(1));
    assert_eq!(list_to_value(vec![]), IppValue::ListOf(vec![]));
    assert_eq!(
        list_to_value(vec![IppValue::Integer(1), IppValue::Integer(2)]),
        IppValue::ListOf(vec![IppValue::Integer(1), IppValue::Integer(2)])
    );
}

#[test]
fn writability_checks() {
    assert!(IppAttribute::new("a", IppValue::Integer(1)).is_writable());
    assert!(!IppAttribute::new("a", IppValue::ListOf(vec![])).is_writable());
    let long = "x".repeat(70000);
    assert!(!IppAttribute::new(&long, IppValue::Integer(1)).is_writable());
    let mut l = IppAttributeList::new();
    l.add(DelimiterTag::JobAttributes, IppAttribute::new("a", IppValue::Keyword(long)));
    assert!(!l.is_writable());
}

#[test]
fn delimiter_bytes() {
    assert_eq!(DelimiterTag::PrinterAttributes.to_u8(), 4);
    assert_eq!(DelimiterTag::from_u8(2), Some(DelimiterTag::JobAttributes));
    assert_eq!(DelimiterTag::from_u8(9), None);
}

#[test]
fn header_names_are_recognised() {
    assert!(is_header_attr("attributes-charset"));
    assert!(is_header_attr("attributes-natural-language"));
    assert!(is_header_attr("printer-uri"));
    assert!(!is_header_attr("printer-uri-supported"));
    assert!(str_eq("é", "é"));
    assert!(!str_eq("é", "e"));
}

#[test]
fn group_boundary_files_attribute_under_next_group() {
    let mut body = vec![0x02];
    record(&mut body, 0x21, "job-id", &[0, 0, 0, 3]);
    body.push(0x04);
    record(&mut body, 0x44, "printer-state-reasons", b"none");
    body.push(0x03);
    let res = IppParser::new(with_header(&body)).parse().unwrap();
    let a = &res.attributes;
    assert!(a.get_job_attributes().is_none());
    let printer = a.get_printer_attributes().unwrap();
    assert_eq!(printer.len(), 2);
    assert_eq!(printer[0].name(), "job-id");
    assert_eq!(printer[1].name(), "printer-state-reasons");
}

#[test]
fn value_read_decodes_each_kind() {
    assert_eq!(IppValue::read(0x21, vec![0x80, 0, 0, 0]), Some(IppValue::Integer(i32::MIN)));
    assert_eq!(IppValue::read(0x22, vec![7]), Some(IppValue::Boolean(true)));
    assert_eq!(IppValue::read(0x45, b"ipp://h".to_vec()), Some(IppValue::Uri(text("ipp://h"))));
    assert_eq!(IppValue::read(0x13, vec![]), Some(IppValue::Other { tag: 0x13, data: vec![] }));
    assert_eq!(IppValue::read(0x22, vec![]), None);
}

#[test]
fn decided_once_end_marker_or_bad_tag_is_read() {
    let mut body = vec![0x01];
    record(&mut body, 0x21, "a", &[0, 0, 0, 1]);
    let partial = with_header(&body);
    assert!(!is_decided(&partial));
    assert!(!is_decided(&partial[..5].to_vec()));
    let mut whole = partial.clone();
    whole.push(0x03);
    assert!(is_decided(&whole));
    let mut bad = partial;
    bad.push(0x60);
    assert!(is_decided(&bad));
}

#[test]
fn collection_brackets_with_payloads() {
    let mut body = vec![0x02];
    record(&mut body, 0x34, "media-col", b"xy");
    record(&mut body, 0x4a, "", b"media-type");
    record(&mut body, 0x44, "", b"plain");
    record(&mut body, 0x37, "", b"z");
    body.push(0x03);
    let res = IppParser::new(with_header(&body)).parse().unwrap();
    assert_eq!(res.attributes.get_job_attributes().unwrap().len(), 1);
    let v = res.attributes.get(DelimiterTag::JobAttributes, "media-col").unwrap().value();
    assert_eq!(
        v,
        &IppValue::Collection(vec![IppValue::MemberAttrName(text("media-type")), IppValue::Keyword(text("plain"))])
    );
}
