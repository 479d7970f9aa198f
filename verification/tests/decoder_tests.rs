use gridpulse::analytics::{score_batch, try_score_batch, BatchScore};
use gridpulse::frame::{FrameKind, FLAG_FRAGMENT};
use gridpulse::measurements::ReadingValue;
use gridpulse::scripts::ScriptInstruction;
use gridpulse::template::FieldKind;
use gridpulse::{Decoder, GridError};

const SESSION: u16 = 0x0102;

fn frame(kind: u8, session: u16, seq: u16, flags: u8, idx: u8, count: u8, payload: &[u8]) -> Vec<u8> {
    let mut v = vec![b'G', b'P', 1, flags];
    v.extend(session.to_le_bytes());
    v.extend(seq.to_le_bytes());
    v.push(idx);
    v.push(count);
    v.push(kind);
    v.extend((payload.len() as u16).to_le_bytes());
    v.extend(payload);
    v
}

fn whole(kind: u8, session: u16, seq: u16, payload: &[u8]) -> Vec<u8> {
    frame(kind, session, seq, 0, 0, 1, payload)
}

fn hello(session: u16) -> Vec<u8> {
    // epoch 1000, profile 0x1001
    whole(0x01, session, 1, &[0xe8, 0x03, 0x00, 0x00, 0x01, 0x10])
}

/// Template 0x0010 revision 2 with six fields and a vendor note.
fn template_tlvs() -> Vec<u8> {
    let mut v = vec![0x01, 6, 0x10, 0x00, 0x02, 0x00, 0x84, 0x03];
    v.extend([0x42, 25, 6]);
    v.extend([0x01, 0x01, 0xff, 0x00]); // voltage, unsigned, 2 bytes, scale -1
    v.extend([0x09, 0x20, 0x00, 0x01]); // tamper flags, bitmap, 1 byte, nullable
    v.extend([0x08, 0x08, 0x00, 0x00]); // temperature, signed, 1 byte
    v.extend([0x06, 0x29, 0x00, 0x00]); // energy import, packed bcd, 2 bytes
    v.extend([0x02, 0x10, 0x00, 0x00]); // current, zigzag, 1 byte
    v.extend([0x0a, 0x00, 0x00, 0x00]); // outage cause, unsigned, 1 byte
    v.extend([0xc3, 2, 0xaa, 0xbb]);
    v
}

fn reading_payload() -> Vec<u8> {
    vec![
        0x44, 0x33, 0x22, 0x11, // meter id
        0x10, 0x00, 0x02, // template id and revision
        0x00, // flags
        0x07, // quality
        0x05, // timestamp delta -3
        0xfd, 0x08, // 2301
        0xff, // null tamper flags
        0xfb, // -5
        0x34, 0x12, // bcd 1234
        0x03, // zigzag -2
        0x04, // outage cause 4
    ]
}

fn full_stream() -> Vec<u8> {
    let mut s = hello(SESSION);
    let mut control = vec![0x01];
    control.extend(template_tlvs());
    s.extend(whole(0x02, SESSION, 2, &control));
    s.extend(whole(0x03, SESSION, 3, &reading_payload()));
    s.extend(whole(0x04, SESSION, 4, &[0x01, 2, 1, 0, 2, 0, 100, 0, 50, 1, 0, 3, 0, 200, 0, 10]));
    s.extend(whole(0x04, SESSION, 5, &[0x02, 7, 0, 8, 0, 3, 9, 2, 0, 1, 0x00, 0x03]));
    s.extend(whole(0x04, SESSION, 6, &[0x04, 20]));
    s.extend(frame(0x05, SESSION, 7, FLAG_FRAGMENT, 0, 2, &[1, 4, 0, 1]));
    s.extend(frame(0x05, SESSION, 7, FLAG_FRAGMENT, 1, 2, &[1, 3, 2]));
    s
}

#[test]
fn a_full_session_decodes() {
    let mut decoder = Decoder::new();
    let batch = decoder.ingest_stream(&full_stream()).unwrap();
    assert_eq!(batch.session_id, Some(SESSION));
    let d = &batch.diagnostics;
    assert_eq!(d.frames_seen, 8);
    assert_eq!(d.fragments_completed, 1);
    assert_eq!(d.templates_installed, 1);
    assert_eq!(d.templates_compacted, 0);
    assert_eq!(d.readings_decoded, 1);
    assert_eq!(d.route_events, 1);
    assert_eq!(d.scripts_decoded, 1);
    assert!(d.warnings.is_empty());

    let kinds: Vec<FrameKind> = batch.frames.iter().map(|f| f.kind).collect();
    assert_eq!(
        kinds,
        vec![
            FrameKind::Hello,
            FrameKind::Template,
            FrameKind::Reading,
            FrameKind::Route,
            FrameKind::Route,
            FrameKind::Route,
            FrameKind::Script
        ]
    );
    let last = &batch.frames[6];
    assert_eq!(last.sequence, 7);
    assert_eq!(last.payload_len, 7);
    assert!(!last.was_fragment);

    assert_eq!(batch.readings.len(), 1);
    let r = &batch.readings[0];
    assert_eq!(r.meter_id, 0x1122_3344);
    assert_eq!(r.template_id, 0x10);
    assert_eq!(r.template_revision, 2);
    assert_eq!(r.quality, 7);
    assert_eq!(r.timestamp_delta, -3);
    assert_eq!(
        r.values,
        vec![
            ReadingValue::Integer { kind: FieldKind::Voltage, value: 2301, scale: -1 },
            ReadingValue::Null { kind: FieldKind::TamperFlags },
            ReadingValue::Integer { kind: FieldKind::Temperature, value: -5, scale: 0 },
            ReadingValue::Integer { kind: FieldKind::EnergyImport, value: 1234, scale: 0 },
            ReadingValue::Integer { kind: FieldKind::Current, value: -2, scale: 0 },
            ReadingValue::Integer { kind: FieldKind::OutageCause, value: 4, scale: 0 },
        ]
    );

    assert_eq!(batch.route_events.len(), 1);
    let e = &batch.route_events[0];
    assert_eq!((e.feeder_id, e.collector_id, e.quality), (7, 8, 9));
    assert_eq!(e.hops, vec![100, 200, 768]);

    assert_eq!(batch.script_programs.len(), 1);
    let p = &batch.script_programs[0];
    assert_eq!((p.version, p.max_depth, p.declared_len), (1, 0, 4));
    assert_eq!(p.instructions.len(), 1);
    assert!(matches!(p.instructions[0], ScriptInstruction::SetTariff { meter_class: 1, tariff: 0x0203 }));

    assert_eq!(decoder.template_count(), 1);
    assert_eq!(decoder.route_count(), 1);
    assert_eq!(decoder.pending_fragments(), 0);

    let expected = BatchScore { voltage_samples: 1, outage_indicators: 1, route_hops: 3, script_weight: 2, warning_count: 0 };
    assert_eq!(score_batch(&batch), expected);
    assert_eq!(try_score_batch(&batch), Some(expected));
}

#[test]
fn parse_uses_a_fresh_decoder() {
    let batch = gridpulse::parse(&full_stream()).unwrap();
    assert_eq!(batch.readings.len(), 1);
    assert_eq!(batch.frames.len(), 7);
}

#[test]
fn frames_need_a_session() {
    let stream = whole(0x06, SESSION, 1, &[]);
    assert_eq!(gridpulse::parse(&stream).unwrap_err(), GridError::MissingSession);
    let stream = whole(0x03, SESSION, 1, &reading_payload());
    assert_eq!(gridpulse::parse(&stream).unwrap_err(), GridError::MissingSession);
}

#[test]
fn frames_of_another_session_are_refused() {
    let mut stream = hello(1);
    stream.extend(whole(0x07, 2, 9, &[]));
    assert_eq!(
        gridpulse::parse(&stream).unwrap_err(),
        GridError::SessionMismatch { expected: 1, actual: 2 }
    );
}

#[test]
fn unknown_frame_kinds_are_refused() {
    let mut stream = hello(1);
    stream.extend(whole(0x42, 1, 2, &[]));
    assert_eq!(gridpulse::parse(&stream).unwrap_err(), GridError::UnsupportedFrameKind(0x42));
    assert_eq!(gridpulse::parse(&whole(0x00, 1, 2, &[])).unwrap_err(), GridError::UnsupportedFrameKind(0));
}

#[test]
fn an_unknown_profile_is_warned_about() {
    let stream = whole(0x01, 5, 1, &[0, 0, 0, 0, 0x3b, 0x2a]);
    let batch = gridpulse::parse(&stream).unwrap();
    assert_eq!(batch.diagnostics.warnings, vec!["unknown profile 0x2a3b".to_string()]);
    assert_eq!(batch.session_id, Some(5));
    let stream = whole(0x01, 5, 1, &[0, 0, 0, 0, 0x0f, 0x00]);
    let batch = gridpulse::parse(&stream).unwrap();
    assert_eq!(batch.diagnostics.warnings, vec!["unknown profile 0x000f".to_string()]);
}

#[test]
fn a_short_hello_uses_defaults() {
    let batch = gridpulse::parse(&whole(0x01, 5, 1, &[])).unwrap();
    assert!(batch.diagnostics.warnings.is_empty());
    assert_eq!(batch.session_id, Some(5));
}

#[test]
fn an_empty_stream_gives_an_empty_batch() {
    let batch = gridpulse::parse(&[]).unwrap();
    assert_eq!(batch.session_id, None);
    assert!(batch.frames.is_empty());
    assert_eq!(batch.diagnostics.frames_seen, 0);
}

#[test]
fn a_reading_needs_its_template() {
    let mut stream = hello(SESSION);
    stream.extend(whole(0x03, SESSION, 2, &reading_payload()));
    assert_eq!(
        gridpulse::parse(&stream).unwrap_err(),
        GridError::TemplateMissing { id: 0x10, revision: 2 }
    );
}

#[test]
fn a_plain_template_payload_installs() {
    let mut stream = hello(SESSION);
    stream.extend(whole(0x02, SESSION, 2, &template_tlvs()));
    stream.extend(whole(0x03, SESSION, 3, &reading_payload()));
    let batch = gridpulse::parse(&stream).unwrap();
    assert_eq!(batch.diagnostics.templates_installed, 1);
    assert_eq!(batch.readings.len(), 1);
}

#[test]
fn a_bad_template_frame_reports_the_install_error() {
    let mut stream = hello(SESSION);
    stream.extend(whole(0x02, SESSION, 2, &[0x09]));
    assert!(matches!(gridpulse::parse(&stream).unwrap_err(), GridError::Truncated { .. }));
}

#[test]
fn the_decoder_keeps_state_across_streams() {
    let mut decoder = Decoder::default();
    let mut first = hello(SESSION);
    let mut control = vec![0x01];
    control.extend(template_tlvs());
    first.extend(whole(0x02, SESSION, 2, &control));
    let b1 = decoder.ingest_stream(&first).unwrap();
    assert_eq!(b1.diagnostics.templates_installed, 1);
    let b2 = decoder.ingest_stream(&whole(0x03, SESSION, 3, &reading_payload())).unwrap();
    assert_eq!(b2.readings.len(), 1);
    assert_eq!(b2.session_id, Some(SESSION));
    assert_eq!(decoder.template_count(), 1);
}

#[test]
fn an_incomplete_message_waits() {
    let mut decoder = Decoder::new();
    let mut s = hello(SESSION);
    s.extend(frame(0x05, SESSION, 7, FLAG_FRAGMENT, 1, 2, &[1, 3, 2]));
    let batch = decoder.ingest_stream(&s).unwrap();
    assert_eq!(batch.frames.len(), 1);
    assert_eq!(decoder.pending_fragments(), 1);
    let batch = decoder.ingest_stream(&frame(0x05, SESSION, 7, FLAG_FRAGMENT, 0, 2, &[1, 4, 0, 1])).unwrap();
    assert_eq!(batch.script_programs.len(), 1);
    assert_eq!(batch.diagnostics.fragments_completed, 1);
    assert_eq!(decoder.pending_fragments(), 0);
}

#[test]
fn a_repeated_fragment_conflicts() {
    let mut s = hello(SESSION);
    s.extend(frame(0x05, SESSION, 7, FLAG_FRAGMENT, 0, 2, &[1]));
    s.extend(frame(0x05, SESSION, 7, FLAG_FRAGMENT, 0, 2, &[1]));
    assert_eq!(gridpulse::parse(&s).unwrap_err(), GridError::FragmentConflict);
}

#[test]
fn too_many_fragments_are_refused() {
    let s = frame(0x05, SESSION, 7, FLAG_FRAGMENT, 0, 33, &[1]);
    assert_eq!(gridpulse::parse(&s).unwrap_err(), GridError::FragmentTooLarge);
}

#[test]
fn a_bad_stream_reports_the_frame_error() {
    let mut s = hello(SESSION);
    s[2] = 9;
    assert_eq!(gridpulse::parse(&s).unwrap_err(), GridError::InvalidVersion(9));
}

#[test]
fn a_cloned_decoder_carries_the_same_state() {
    let mut decoder = Decoder::new();
    let mut s = hello(SESSION);
    s.extend(frame(0x05, SESSION, 7, FLAG_FRAGMENT, 1, 2, &[1, 3, 2]));
    decoder.ingest_stream(&s).unwrap();
    let mut copy = decoder.clone();
    assert_eq!(copy.pending_fragments(), 1);
    let batch = copy.ingest_stream(&frame(0x05, SESSION, 7, FLAG_FRAGMENT, 0, 2, &[1, 4, 0, 1])).unwrap();
    assert_eq!(batch.script_programs.len(), 1);
    assert_eq!(copy.pending_fragments(), 0);
    assert_eq!(decoder.pending_fragments(), 1);
}
