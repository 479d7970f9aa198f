use gridpulse::measurements::{decode_reading, ReadingValue};
use gridpulse::model::Diagnostics;
use gridpulse::template::{parse_template, FieldCodec, FieldKind, TemplateBank};
use gridpulse::tlv::{find_tlv, parse_tlvs, TlvClass};
use gridpulse::GridError;

fn header(id: u16, revision: u8) -> Vec<u8> {
    let mut v = vec![0x01, 6];
    v.extend(id.to_le_bytes());
    v.extend([revision, 0x05, 0x2c, 0x01]);
    v
}

/// A template with `n` unsigned one-byte fields of the given kind.
fn template(id: u16, revision: u8, n: u8, kind: u8) -> Vec<u8> {
    let mut v = header(id, revision);
    v.extend([0x42, 1 + 4 * n, n]);
    for _ in 0..n {
        v.extend([kind, 0x00, 0x00, 0x00]);
    }
    v
}

fn one_field(kind: u8, raw: u8, scale: u8, nullable: u8) -> Vec<u8> {
    let mut v = header(9, 1);
    v.extend([0x42, 5, 1, kind, raw, scale, nullable]);
    v
}

fn reading(id: u16, revision: u8, flags: u8, values: &[u8]) -> Vec<u8> {
    let mut v = vec![1, 0, 0, 0];
    v.extend(id.to_le_bytes());
    v.extend([revision, flags, 3, 0]);
    v.extend(values);
    v
}

#[test]
fn field_ids_map_to_kinds_and_codecs() {
    assert_eq!(FieldKind::from_id(0x01), FieldKind::Voltage);
    assert_eq!(FieldKind::from_id(0x05), FieldKind::Frequency);
    assert_eq!(FieldKind::from_id(0x0a), FieldKind::OutageCause);
    assert_eq!(FieldKind::from_id(0x0b), FieldKind::Custom(0x0b));
    assert_eq!(FieldKind::from_id(0x00), FieldKind::Custom(0));
    assert_eq!(FieldCodec::from_id(0), FieldCodec::Unsigned);
    assert_eq!(FieldCodec::from_id(3), FieldCodec::FixedPoint);
    assert_eq!(FieldCodec::from_id(5), FieldCodec::PackedBcd);
    assert_eq!(FieldCodec::from_id(7), FieldCodec::PackedBcd);
    assert_eq!(FieldCodec::from_id(0x0c), FieldCodec::Bitmap);
}

#[test]
fn tlvs_parse_and_are_found() {
    let data = [0x01, 2, 7, 8, 0x62, 0x01, 9, 0xc3, 0];
    let tlvs = parse_tlvs(&data).unwrap();
    assert_eq!(tlvs.len(), 3);
    assert_eq!(tlvs[0].class, TlvClass::Core);
    assert_eq!(tlvs[1].class, TlvClass::Meter);
    assert_eq!(tlvs[1].tag_id(), 0x22);
    assert_eq!(tlvs[1].value, &[9]);
    assert_eq!(tlvs[2].class, TlvClass::Vendor);
    assert_eq!(tlvs[2].value.len(), 0);
    assert_eq!(find_tlv(&tlvs, TlvClass::Core, 1).unwrap().value, &[7, 8]);
    assert!(find_tlv(&tlvs, TlvClass::Routing, 1).is_none());
    assert_eq!(
        parse_tlvs(&[0x01, 3, 1]).unwrap_err(),
        GridError::TlvMalformed("declared length exceeds remaining bytes")
    );
    let many = vec![0x81u8, 0].repeat(257);
    assert_eq!(parse_tlvs(&many).unwrap_err(), GridError::TlvMalformed("too many tlv records"));
    assert_eq!(parse_tlvs(&vec![0x81u8, 0].repeat(256)).unwrap().len(), 256);
}

#[test]
fn a_template_parses() {
    let mut data = template(0x1234, 3, 2, 0x01);
    data.extend([0xc3, 1, 0x77]);
    let t = parse_template(&data).unwrap();
    assert_eq!((t.id, t.revision, t.flags, t.interval_seconds), (0x1234, 3, 0x05, 300));
    assert_eq!(t.fields.len(), 2);
    assert_eq!(t.fields[0].kind, FieldKind::Voltage);
    assert_eq!(t.fields[0].width, 1);
    assert_eq!(t.fields[0].codec, FieldCodec::Unsigned);
    assert!(!t.fields[0].nullable);
    assert_eq!(t.vendor_note, Some(vec![0x77]));
}

#[test]
fn a_short_header_uses_the_default_interval() {
    let mut data = vec![0x01, 4, 1, 0, 1, 0];
    data.extend([0x42, 1, 0]);
    let t = parse_template(&data).unwrap();
    assert_eq!(t.interval_seconds, 900);
    assert!(t.fields.is_empty());
    assert_eq!(t.vendor_note, None);
}

#[test]
fn field_bytes_are_decoded() {
    let t = parse_template(&one_field(0x09, 0x27, 0xfe, 0x03)).unwrap();
    let f = t.fields[0];
    assert_eq!(f.kind, FieldKind::TamperFlags);
    assert_eq!(f.width, 8);
    assert_eq!(f.codec, FieldCodec::Bitmap);
    assert_eq!(f.scale, -2);
    assert!(f.nullable);
}

#[test]
fn malformed_templates_are_refused() {
    assert_eq!(
        parse_template(&[0x42, 1, 0]).unwrap_err(),
        GridError::TemplateMalformed("template header missing")
    );
    assert_eq!(parse_template(&header(1, 1)).unwrap_err(), GridError::TemplateMalformed("field list missing"));
    let mut data = header(1, 1);
    data.extend([0x42, 1, 65]);
    assert_eq!(parse_template(&data).unwrap_err(), GridError::TemplateMalformed("too many fields"));
    let data = [0x01, 2, 1, 0];
    assert!(matches!(parse_template(&data).unwrap_err(), GridError::Truncated { .. }));
}

#[test]
fn an_installed_template_is_found() {
    let mut bank = TemplateBank::new();
    let mut d = Diagnostics::default();
    bank.install_from_payload(&template(5, 1, 2, 0x01), &mut d).unwrap();
    assert_eq!(d.templates_installed, 1);
    assert_eq!(bank.len(), 1);
    assert_eq!(bank.lookup(5, 1).unwrap().fields.len(), 2);
    assert!(bank.lookup(5, 2).is_none());
    bank.install_from_payload(&template(5, 1, 3, 0x01), &mut d).unwrap();
    assert_eq!(bank.len(), 1);
    assert_eq!(bank.lookup(5, 1).unwrap().fields.len(), 3);
    assert_eq!(d.templates_installed, 2);
}

#[test]
fn the_cache_follows_the_last_lookup() {
    let mut bank = TemplateBank::default();
    let mut d = Diagnostics::default();
    assert!(bank.reuse_cached_template(5, 1).is_none());
    bank.install_from_payload(&template(5, 1, 2, 0x01), &mut d).unwrap();
    bank.install_from_payload(&template(6, 1, 1, 0x01), &mut d).unwrap();
    assert!(bank.reuse_cached_template(5, 1).is_none());
    bank.lookup(5, 1).unwrap();
    assert_eq!(bank.reuse_cached_template(5, 1).unwrap().id, 5);
    assert!(bank.reuse_cached_template(6, 1).is_none());
    bank.apply_control(&[0x02], &mut d).unwrap();
    assert_eq!(d.templates_compacted, 1);
    assert_eq!(bank.reuse_cached_template(5, 1).unwrap().fields.len(), 2);
    bank.apply_control(&[0x03, 5, 0, 1], &mut d).unwrap();
    assert!(bank.reuse_cached_template(5, 1).is_none());
    assert!(bank.lookup(5, 1).is_none());
    assert_eq!(bank.len(), 1);
}

#[test]
fn control_messages() {
    let mut bank = TemplateBank::new();
    let mut d = Diagnostics::default();
    let mut install = vec![0x01];
    install.extend(template(7, 2, 1, 0x01));
    bank.apply_control(&install, &mut d).unwrap();
    assert_eq!(bank.len(), 1);
    assert_eq!(d.templates_installed, 1);
    bank.apply_control(&[0x03, 7, 0, 3], &mut d).unwrap();
    assert_eq!(bank.len(), 1);
    bank.apply_control(&[0x03, 7, 0, 2], &mut d).unwrap();
    assert_eq!(bank.len(), 0);
    assert_eq!(
        bank.apply_control(&[0x04], &mut d).unwrap_err(),
        GridError::TemplateMalformed("unknown template control opcode")
    );
    assert!(matches!(bank.apply_control(&[], &mut d).unwrap_err(), GridError::Truncated { .. }));
    assert!(matches!(bank.apply_control(&[0x03, 7], &mut d).unwrap_err(), GridError::Truncated { .. }));
}

#[test]
fn readings_use_the_template() {
    let mut bank = TemplateBank::new();
    let mut d = Diagnostics::default();
    bank.install_from_payload(&template(5, 1, 2, 0x01), &mut d).unwrap();
    let r = decode_reading(&reading(5, 1, 0, &[10, 20, 99]), &mut bank, &mut d).unwrap();
    assert_eq!(d.readings_decoded, 1);
    assert_eq!(r.quality, 3);
    assert_eq!(r.timestamp_delta, 0);
    assert_eq!(
        r.values,
        vec![
            ReadingValue::Integer { kind: FieldKind::Voltage, value: 10, scale: 0 },
            ReadingValue::Integer { kind: FieldKind::Voltage, value: 20, scale: 0 },
        ]
    );
    let r = decode_reading(&reading(5, 1, 1, &[11, 21]), &mut bank, &mut d).unwrap();
    assert_eq!(r.values.len(), 2);
    assert!(matches!(
        decode_reading(&reading(5, 1, 0, &[11]), &mut bank, &mut d).unwrap_err(),
        GridError::Truncated { .. }
    ));
    assert_eq!(d.readings_decoded, 2);
}

#[test]
fn the_cached_flag_needs_a_lookup_first() {
    let mut bank = TemplateBank::new();
    let mut d = Diagnostics::default();
    bank.install_from_payload(&template(5, 1, 1, 0x01), &mut d).unwrap();
    assert_eq!(
        decode_reading(&reading(5, 1, 1, &[1]), &mut bank, &mut d).unwrap_err(),
        GridError::TemplateMissing { id: 5, revision: 1 }
    );
}

fn decode_one(field: &[u8], values: &[u8]) -> ReadingValue {
    let mut bank = TemplateBank::new();
    let mut d = Diagnostics::default();
    bank.install_from_payload(field, &mut d).unwrap();
    let r = decode_reading(&reading(9, 1, 0, values), &mut bank, &mut d).unwrap();
    r.values[0].clone()
}

#[test]
fn value_encodings() {
    let k = FieldKind::Custom(0x20);
    assert_eq!(
        decode_one(&one_field(0x20, 0x09, 0, 0), &[0xfe, 0xff]),
        ReadingValue::Integer { kind: k, value: -2, scale: 0 }
    );
    assert_eq!(
        decode_one(&one_field(0x20, 0x0f, 0, 0), &[0xff; 8]),
        ReadingValue::Integer { kind: k, value: -1, scale: 0 }
    );
    assert_eq!(
        decode_one(&one_field(0x20, 0x11, 0, 0), &[0x05, 0x00]),
        ReadingValue::Integer { kind: k, value: -3, scale: 0 }
    );
    assert_eq!(
        decode_one(&one_field(0x20, 0x28, 0, 0), &[0x1a]),
        ReadingValue::Integer { kind: k, value: 26, scale: 0 }
    );
    assert_eq!(
        decode_one(&one_field(0x20, 0x2a, 0, 0), &[0x56, 0x34, 0x12]),
        ReadingValue::Integer { kind: k, value: 123456, scale: 0 }
    );
    assert_eq!(
        decode_one(&one_field(0x20, 0x19, 3, 0), &[0x10, 0x27]),
        ReadingValue::Integer { kind: k, value: 10000, scale: 3 }
    );
    assert_eq!(
        decode_one(&one_field(0x20, 0x21, 0, 0), &[0x03, 0x80]),
        ReadingValue::Bitmap { kind: k, bits: 0x8003 }
    );
    assert_eq!(
        decode_one(&one_field(0x20, 0x00, 0, 1), &[0xff]),
        ReadingValue::Null { kind: k }
    );
    assert_eq!(
        decode_one(&one_field(0x20, 0x00, 0, 1), &[0xfe]),
        ReadingValue::Integer { kind: k, value: 0xfe, scale: 0 }
    );
    assert_eq!(
        decode_one(&one_field(0x20, 0x00, 0, 0), &[0xff]),
        ReadingValue::Integer { kind: k, value: 0xff, scale: 0 }
    );
}
