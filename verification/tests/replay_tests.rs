use gridpulse::analytics::{score_batch, try_score_batch, BatchScore};
use gridpulse::crc::folded_checksum;
use gridpulse::frame::{encode_seed_frame, FrameKind};
use gridpulse::replay::ReplayRunner;
use gridpulse::{DecodedBatch, ReplayReport};

fn hello(session: u16) -> Vec<u8> {
    encode_seed_frame(FrameKind::Hello, session, 1, 0, &[])
}

fn segment(out: &mut Vec<u8>, declared: u16, bytes: &[u8]) {
    out.extend(declared.to_le_bytes());
    out.extend(bytes);
}

#[test]
fn marked_replays_are_split_into_segments() {
    let mut data = b"GPLR".to_vec();
    let h = hello(1);
    segment(&mut data, h.len() as u16, &h);
    let reading = encode_seed_frame(FrameKind::Reading, 1, 2, 0, &[1, 0, 0, 0, 5, 0, 1, 0, 0]);
    segment(&mut data, reading.len() as u16, &reading);
    let ack = encode_seed_frame(FrameKind::Ack, 1, 3, 0, &[]);
    segment(&mut data, 0xffff, &ack);
    let report = gridpulse::replay(&data).unwrap();
    assert_eq!(report.accepted_segments, 2);
    assert_eq!(report.rejected_segments, 1);
    assert_eq!(report.batches.len(), 2);
    assert_eq!(report.batches[0].session_id, Some(1));
    assert_eq!(report.batches[1].frames.len(), 1);
    assert_eq!(report.batches[1].session_id, Some(1));
    assert_eq!(report.fingerprint, folded_checksum(&data));
}

#[test]
fn a_short_tail_ends_a_marked_replay() {
    let mut data = b"GPLR".to_vec();
    data.push(7);
    let report = gridpulse::replay(&data).unwrap();
    assert_eq!(report.accepted_segments, 0);
    assert_eq!(report.rejected_segments, 0);
    assert!(report.batches.is_empty());
    assert_eq!(report.fingerprint, folded_checksum(&data));
}

#[test]
fn at_most_513_segments_are_read() {
    let mut data = b"GPLR".to_vec();
    for _ in 0..600 {
        segment(&mut data, 0, &[]);
    }
    let report = gridpulse::replay(&data).unwrap();
    assert_eq!(report.accepted_segments, 513);
    assert_eq!(report.batches.len(), 513);
}

#[test]
fn unmarked_replays_are_one_stream() {
    let data = hello(4);
    let report = gridpulse::replay(&data).unwrap();
    assert_eq!(report.accepted_segments, 1);
    assert_eq!(report.rejected_segments, 0);
    assert_eq!(report.batches.len(), 1);
    assert_eq!(report.batches[0].session_id, gridpulse::parse(&data).unwrap().session_id);

    let mut bad = hello(4);
    bad[2] = 3;
    let report = ReplayRunner::new().run(&bad).unwrap();
    assert_eq!(report.accepted_segments, 0);
    assert_eq!(report.rejected_segments, 1);
    assert!(report.batches.is_empty());

    let report = gridpulse::replay(&[]).unwrap();
    assert_eq!(report.accepted_segments, 1);
    assert_eq!(report.fingerprint, 0x9e37_79b9);
}

#[test]
fn empty_values() {
    let r = ReplayReport::new();
    assert_eq!((r.fingerprint, r.accepted_segments, r.rejected_segments), (0, 0, 0));
    let b = DecodedBatch::default();
    assert_eq!(b.session_id, None);
    assert_eq!(score_batch(&b), BatchScore::default());
}

fn script_frame(session: u16, body: &[u8]) -> Vec<u8> {
    let mut p = vec![1];
    p.extend((body.len() as u16).to_le_bytes());
    p.extend(body);
    encode_seed_frame(FrameKind::Script, session, 2, 0, &p)
}

#[test]
fn nested_script_weight_is_counted_again() {
    let mut s = hello(1);
    s.extend(script_frame(1, &[0x07, 2, 4, 0x01, 0, 0, 0]));
    let batch = gridpulse::parse(&s).unwrap();
    let score = score_batch(&batch);
    assert_eq!(score.script_weight, 6 + 2);
    assert_eq!(try_score_batch(&batch), Some(score));
}

#[test]
fn outage_indicators_follow_tamper_bits_and_causes() {
    // Template 1/1: tamper bitmap (1 byte), outage cause (1 byte), voltage (1 byte).
    let mut control = vec![0x01, 0x01, 6, 1, 0, 1, 0, 0, 0, 0x42, 13, 3];
    control.extend([0x09, 0x20, 0, 0, 0x0a, 0x00, 0, 0, 0x01, 0x00, 0, 0]);
    let mut s = hello(1);
    s.extend(encode_seed_frame(FrameKind::Template, 1, 2, 0, &control));
    for (tamper, cause) in [(0x01u8, 0u8), (0x04, 0), (0x02, 3), (0x00, 0)] {
        s.extend(encode_seed_frame(FrameKind::Reading, 1, 3, 0, &[9, 0, 0, 0, 1, 0, 1, 0, 0, 0, tamper, cause, 230]));
    }
    let batch = gridpulse::parse(&s).unwrap();
    assert_eq!(batch.readings.len(), 4);
    let score = score_batch(&batch);
    assert_eq!(score.voltage_samples, 4);
    assert_eq!(score.outage_indicators, 3);
    assert_eq!(score.route_hops, 0);
    assert_eq!(score.warning_count, 0);
}
