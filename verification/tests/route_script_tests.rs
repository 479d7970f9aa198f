use gridpulse::catalog::{is_known_profile, DEFAULT_PROFILE};
use gridpulse::fragment::FragmentAssembler;
use gridpulse::frame::{Frame, FrameKind, FLAG_CRC_PRESENT, FLAG_FRAGMENT};
use gridpulse::model::Diagnostics;
use gridpulse::route::RouteTable;
use gridpulse::scripts::{checked_instruction_weight, instruction_weight, ScriptInstruction};
use gridpulse::GridError;

fn entry(feeder: u16, collector: u16, parent: u16, quality: u8) -> Vec<u8> {
    let mut v = Vec::new();
    v.extend(feeder.to_le_bytes());
    v.extend(collector.to_le_bytes());
    v.extend(parent.to_le_bytes());
    v.push(quality);
    v
}

fn install(entries: &[Vec<u8>]) -> Vec<u8> {
    let mut v = vec![0x01, entries.len() as u8];
    for e in entries {
        v.extend(e);
    }
    v
}

#[test]
fn route_entries_install_and_update() {
    let mut t = RouteTable::new();
    let mut d = Diagnostics::default();
    let events = t.apply_route_message(&install(&[entry(1, 2, 5, 9), entry(1, 3, 6, 9)]), &mut d).unwrap();
    assert!(events.is_empty());
    assert_eq!(t.len(), 2);
    t.apply_route_message(&install(&[entry(1, 2, 7, 1)]), &mut d).unwrap();
    assert_eq!(t.len(), 2);
    let ev = t.apply_route_message(&[0x02, 1, 0, 2, 0, 2, 4, 2, 0, 1], &mut d).unwrap();
    assert_eq!(ev[0].hops, vec![7, 6]);
    assert_eq!(d.route_events, 1);
    let many: Vec<Vec<u8>> = (0..65).map(|i| entry(i, 0, 0, 0)).collect();
    assert_eq!(
        t.apply_route_message(&install(&many), &mut d).unwrap_err(),
        GridError::RouteMalformed("too many route entries")
    );
}

#[test]
fn route_paths_mix_seeds_and_inline_hops() {
    let mut t = RouteTable::default();
    let mut d = Diagnostics::default();
    t.apply_route_message(&install(&[entry(1, 2, 100, 50), entry(1, 3, 200, 10)]), &mut d).unwrap();
    let ev = t
        .apply_route_message(&[0x02, 7, 0, 8, 0, 4, 9, 3, 0, 5, 1, 0x00, 0x03, 0x01, 0x00, 0xaa, 0xbb], &mut d)
        .unwrap();
    assert_eq!(ev.len(), 1);
    assert_eq!((ev[0].feeder_id, ev[0].collector_id, ev[0].quality), (7, 8, 9));
    assert_eq!(ev[0].hops, vec![100, 200, 768, 1]);
    let ev = t.apply_route_message(&[0x02, 7, 0, 8, 0, 1, 9, 2, 1, 0], &mut d).unwrap();
    assert_eq!(ev[0].hops, vec![200]);
    assert_eq!(d.route_events, 2);
}

#[test]
fn a_path_never_holds_more_hops_than_it_has() {
    let mut t = RouteTable::new();
    let mut d = Diagnostics::default();
    let ev = t.apply_route_message(&[0x02, 7, 0, 8, 0, 3, 9, 0, 0x05, 0x00], &mut d).unwrap();
    assert_eq!(ev[0].hops, vec![5]);
    let mut long = vec![0x02, 7, 0, 8, 0, 200, 9, 0];
    for i in 0..200u16 {
        long.extend(i.to_le_bytes());
    }
    let ev = t.apply_route_message(&long, &mut d).unwrap();
    assert_eq!(ev[0].hops.len(), 128);
    assert_eq!(ev[0].hops[127], 127);
}

#[test]
fn seeds_are_capped_at_thirty_two() {
    let mut t = RouteTable::new();
    let mut d = Diagnostics::default();
    t.apply_route_message(&install(&[entry(1, 2, 100, 50)]), &mut d).unwrap();
    let mut msg = vec![0x02, 7, 0, 8, 0, 34, 9, 40];
    msg.extend([0u8; 32]);
    msg.extend([0x09, 0x00]);
    let ev = t.apply_route_message(&msg, &mut d).unwrap();
    assert_eq!(ev[0].hops.len(), 33);
    assert_eq!(ev[0].hops[32], 9);
}

#[test]
fn route_table_control() {
    let mut t = RouteTable::new();
    let mut d = Diagnostics::default();
    t.apply_route_message(&install(&[entry(1, 2, 100, 50), entry(1, 3, 200, 10), entry(1, 4, 300, 20)]), &mut d)
        .unwrap();
    t.apply_route_message(&[0x04, 20], &mut d).unwrap();
    assert_eq!(t.len(), 2);
    let ev = t.apply_route_message(&[0x02, 0, 0, 0, 0, 2, 0, 2, 0, 1], &mut d).unwrap();
    assert_eq!(ev[0].hops, vec![100, 300]);
    t.apply_route_message(&[0x03], &mut d).unwrap();
    assert_eq!(t.len(), 0);
    assert_eq!(t.apply_route_message(&[0x09], &mut d).unwrap_err(), GridError::RouteMalformed("unknown route opcode"));
    assert!(matches!(t.apply_route_message(&[], &mut d).unwrap_err(), GridError::Truncated { .. }));
    assert!(matches!(t.apply_route_message(&[0x04], &mut d).unwrap_err(), GridError::Truncated { .. }));
}

#[test]
fn scripts_parse() {
    let p = gridpulse::parse_script(&[1, 0xff, 0xff, 0x01, 2, 3, 4]).unwrap();
    assert_eq!(p.version, 1);
    assert_eq!(p.declared_len, 0xffff);
    assert!(matches!(p.instructions[0], ScriptInstruction::SetTariff { meter_class: 2, tariff: 0x0403 }));

    let p = gridpulse::parse_script(&[2, 3, 0, 0x04, 0xe8, 0x07, 0x99]).unwrap();
    assert_eq!(p.instructions.len(), 1);
    assert!(matches!(p.instructions[0], ScriptInstruction::Delay { milliseconds: 1000 }));

    let p = gridpulse::parse_script(&[
        1, 19, 0, 0x80, 1, 0x55, 0x05, 0x34, 0x12, 2, 9, 8, 0x08, 1, 0, 2, 0, 3, 0x09, 4, 0, 5, 0x03, 1, 0,
    ])
    .unwrap();
    assert_eq!(p.instructions.len(), 4);
    assert!(matches!(&p.instructions[0], ScriptInstruction::Vendor { opcode: 0x80, payload } if payload == &vec![0x55]));
    assert!(matches!(&p.instructions[1], ScriptInstruction::EmitEvent { code: 0x1234, payload } if payload == &vec![9, 8]));
    assert!(matches!(p.instructions[2], ScriptInstruction::RouteSwitch { from: 1, to: 2, flags: 3 }));
    assert!(matches!(p.instructions[3], ScriptInstruction::AttachTemplate { template_id: 4, revision: 5 }));
}

#[test]
fn scripts_nest() {
    let p = gridpulse::parse_script(&[1, 7, 0, 0x07, 3, 4, 0x02, 0x01, 0x02, 5]).unwrap();
    assert_eq!(p.max_depth, 1);
    match &p.instructions[0] {
        ScriptInstruction::Repeat { count, body } => {
            assert_eq!(*count, 3);
            assert!(matches!(body[0], ScriptInstruction::OpenBreaker { feeder_id: 0x0201, reason: 5 }));
        }
        _ => panic!("expected a repeat"),
    }
}

fn nested_ifs(k: usize) -> Vec<u8> {
    let mut body: Vec<u8> = Vec::new();
    for _ in 0..k {
        let mut outer = vec![0x06, 0, body.len() as u8];
        outer.extend(&body);
        body = outer;
    }
    body
}

fn script(body: &[u8]) -> Vec<u8> {
    let mut v = vec![1];
    v.extend((body.len() as u16).to_le_bytes());
    v.extend(body);
    v
}

#[test]
fn nesting_is_limited_to_twelve() {
    let p = gridpulse::parse_script(&script(&nested_ifs(12))).unwrap();
    assert_eq!(p.max_depth, 12);
    assert_eq!(
        gridpulse::parse_script(&script(&nested_ifs(13))).unwrap_err(),
        GridError::ScriptMalformed("nesting too deep")
    );
}

#[test]
fn a_block_holds_at_most_256_instructions() {
    let ok = [0x01u8, 0, 0, 0].repeat(256);
    assert_eq!(gridpulse::parse_script(&script(&ok)).unwrap().instructions.len(), 256);
    let too_many = [0x01u8, 0, 0, 0].repeat(257);
    assert_eq!(
        gridpulse::parse_script(&script(&too_many)).unwrap_err(),
        GridError::ScriptMalformed("too many instructions")
    );
}

#[test]
fn malformed_scripts_are_refused() {
    assert_eq!(gridpulse::parse_script(&[1, 0]).unwrap_err(), GridError::ScriptMalformed("script header missing"));
    assert_eq!(gridpulse::parse_script(&[1, 1, 0, 0x0a]).unwrap_err(), GridError::UnknownOpcode(0x0a));
    assert_eq!(gridpulse::parse_script(&[1, 1, 0, 0x00]).unwrap_err(), GridError::UnknownOpcode(0));
    assert!(matches!(gridpulse::parse_script(&[1, 2, 0, 0x01, 5]).unwrap_err(), GridError::Truncated { .. }));
    let p = gridpulse::parse_script(&[1, 0, 0]).unwrap();
    assert!(p.instructions.is_empty());
    assert_eq!(p.max_depth, 0);
}

#[test]
fn instruction_weights() {
    assert_eq!(instruction_weight(&ScriptInstruction::SetTariff { meter_class: 1, tariff: 2 }), 2);
    assert_eq!(instruction_weight(&ScriptInstruction::OpenBreaker { feeder_id: 1, reason: 2 }), 5);
    assert_eq!(instruction_weight(&ScriptInstruction::CloseBreaker { feeder_id: 1, guard: 2 }), 5);
    assert_eq!(instruction_weight(&ScriptInstruction::Delay { milliseconds: 5999 }), 6);
    assert_eq!(instruction_weight(&ScriptInstruction::Delay { milliseconds: u32::MAX }), 61);
    assert_eq!(instruction_weight(&ScriptInstruction::EmitEvent { code: 1, payload: vec![1, 2, 3] }), 4);
    assert_eq!(instruction_weight(&ScriptInstruction::RouteSwitch { from: 1, to: 2, flags: 0 }), 8);
    assert_eq!(instruction_weight(&ScriptInstruction::AttachTemplate { template_id: 1, revision: 0 }), 4);
    assert_eq!(instruction_weight(&ScriptInstruction::Vendor { opcode: 0x90, payload: vec![1, 2] }), 3);
    assert_eq!(
        instruction_weight(&ScriptInstruction::IfQualityBelow { threshold: 1, body: vec![ScriptInstruction::SetTariff { meter_class: 1, tariff: 2 }] }),
        5
    );
    let rep = ScriptInstruction::Repeat { count: 20, body: vec![ScriptInstruction::OpenBreaker { feeder_id: 1, reason: 2 }, ScriptInstruction::Delay { milliseconds: 0 }] };
    assert_eq!(instruction_weight(&rep), 2 + 16 * 6);
    assert_eq!(checked_instruction_weight(&rep), Some(98));
    assert_eq!(instruction_weight(&ScriptInstruction::Repeat { count: 0, body: vec![ScriptInstruction::Delay { milliseconds: 0 }] }), 2);
}

#[test]
fn an_overflowing_weight_is_reported() {
    let mut inst = ScriptInstruction::OpenBreaker { feeder_id: 1, reason: 2 };
    for _ in 0..8 {
        inst = ScriptInstruction::Repeat { count: 16, body: vec![inst] };
    }
    assert_eq!(checked_instruction_weight(&inst), None);
    let mut inst = ScriptInstruction::OpenBreaker { feeder_id: 1, reason: 2 };
    for _ in 0..3 {
        inst = ScriptInstruction::Repeat { count: 16, body: vec![inst] };
    }
    assert_eq!(checked_instruction_weight(&inst), Some(2 + 16 * (2 + 16 * (2 + 16 * 5))));
}

fn piece(index: u8, count: u8, payload: &[u8]) -> Frame {
    Frame {
        flags: FLAG_FRAGMENT | FLAG_CRC_PRESENT,
        session_id: 3,
        sequence: 4,
        fragment_index: index,
        fragment_count: count,
        kind: FrameKind::Route,
        payload: payload.to_vec(),
        header_crc: None,
        offset: 0,
    }
}

#[test]
fn fragments_reassemble_in_order() {
    let mut a = FragmentAssembler::new();
    let mut d = Diagnostics::default();
    assert!(a.push(piece(0, 3, &[1, 2]), &mut d).unwrap().is_none());
    assert!(a.push(piece(1, 3, &[3]), &mut d).unwrap().is_none());
    assert_eq!(a.pending_count(), 1);
    let f = a.push(piece(2, 3, &[4, 5]), &mut d).unwrap().unwrap();
    assert_eq!(f.payload, vec![1, 2, 3, 4, 5]);
    assert_eq!(f.kind, FrameKind::Route);
    assert_eq!(f.flags, FLAG_CRC_PRESENT);
    assert_eq!((f.fragment_index, f.fragment_count), (0, 1));
    assert_eq!(d.fragments_completed, 1);
    assert_eq!(a.pending_count(), 0);
}

#[test]
fn fragments_out_of_order_reassemble_by_index() {
    let mut a = FragmentAssembler::default();
    let mut d = Diagnostics::default();
    assert!(a.push(piece(1, 2, &[3]), &mut d).unwrap().is_none());
    let f = a.push(piece(0, 2, &[1, 2]), &mut d).unwrap().unwrap();
    assert_eq!(f.payload, vec![1, 2, 3]);
}

#[test]
fn fragments_in_any_order_join_by_index() {
    let mut a = FragmentAssembler::new();
    let mut d = Diagnostics::default();
    let mut first = piece(2, 3, &[7, 8]);
    first.kind = FrameKind::Script;
    assert!(a.push(first, &mut d).unwrap().is_none());
    assert!(a.push(piece(0, 3, &[1]), &mut d).unwrap().is_none());
    let f = a.push(piece(1, 3, &[4, 5]), &mut d).unwrap().unwrap();
    assert_eq!(f.payload, vec![1, 4, 5, 7, 8]);
    assert_eq!(f.kind, FrameKind::Script);
    assert_eq!(d.fragments_completed, 1);
}

#[test]
fn fragment_errors() {
    let mut a = FragmentAssembler::new();
    let mut d = Diagnostics::default();
    a.push(piece(0, 2, &[1]), &mut d).unwrap();
    assert_eq!(a.push(piece(2, 3, &[1]), &mut d).unwrap_err(), GridError::FragmentConflict);
    assert_eq!(a.push(piece(0, 2, &[1]), &mut d).unwrap_err(), GridError::FragmentConflict);
    assert_eq!(a.push(piece(0, 33, &[1]), &mut d).unwrap_err(), GridError::FragmentTooLarge);
    assert_eq!(a.push(piece(1, 2, &vec![0u8; 8192]), &mut d).unwrap_err(), GridError::FragmentTooLarge);
    let mut b = FragmentAssembler::new();
    assert_eq!(b.push(piece(0, 2, &vec![0u8; 8193]), &mut d).unwrap_err(), GridError::FragmentTooLarge);
}

#[test]
fn whole_frames_pass_through() {
    let mut a = FragmentAssembler::new();
    let mut d = Diagnostics::default();
    let mut f = piece(0, 1, &[7]);
    f.flags = 0;
    let g = a.push(f, &mut d).unwrap().unwrap();
    assert_eq!(g.payload, vec![7]);
    assert_eq!(d.fragments_completed, 0);
}

#[test]
fn warnings_are_capped() {
    let mut d = Diagnostics::default();
    for i in 0..70 {
        d.warn(format!("w{i}"));
    }
    assert_eq!(d.warnings.len(), 64);
    assert_eq!(d.warnings[63], "w63");
}

#[test]
fn the_default_profile_is_known() {
    assert!(is_known_profile(DEFAULT_PROFILE));
    assert!(!is_known_profile(0x2a3b));
}
