use vstd::prelude::*;
use crate::catalog::{DEFAULT_PROFILE, is_known_profile, spec_known_profile};
use crate::cursor::{ByteCursor, spec_read_u16, spec_read_u32};
use crate::error::{GridError, hex_text, push_hex};
use crate::fragment::{FragmentAssembler, SlotView, law_reassembled_within_limit, slots_wf, spec_push};
use crate::frame::{Frame, FrameKind, FrameView, MAX_FRAMES, fragmented, frames_view, parse_frames, spec_parse_frames};
use crate::measurements::{decode_reading, spec_decode_reading};
use crate::model::{BatchView, DecodedBatch, Diagnostics, DiagnosticsView, FrameSummary, empty_batch, programs_view, readouts_view, spec_warn};
use crate::route::{RouteEntryView, RouteTable, events_view, law_route_pairs_stay_unique, pairs_unique, spec_apply_route};
use crate::scripts::{parse_script, spec_parse_script};
use crate::template::{
    BankView, TemplateBank, bank_widths_ok, keys_unique, law_bank_keys_stay_unique, law_bank_widths_stay_ok, spec_apply_control,
    spec_install_payload,
};

verus! {

#[derive(Debug, Clone, Copy)]
struct SessionState {
    session_id: u16,
    meter_epoch: u32,
    negotiated_profile: u16,
    open: bool,
}

/// The session a hello opened.
pub struct SessionView {
    pub session_id: u16,
    pub meter_epoch: u32,
    pub negotiated_profile: u16,
    pub open: bool,
}

impl View for SessionState {
    type V = SessionView;

    closed spec fn view(&self) -> SessionView {
        SessionView {
            session_id: self.session_id,
            meter_epoch: self.meter_epoch,
            negotiated_profile: self.negotiated_profile,
            open: self.open,
        }
    }
}

/// The whole state a decoder keeps between streams.
pub struct DecoderView {
    pub session: Option<SessionView>,
    pub fragments: Seq<SlotView>,
    pub templates: BankView,
    pub routes: Seq<RouteEntryView>,
}

/// A decoder with no session and empty dictionaries.
pub open spec fn fresh_decoder() -> DecoderView {
    DecoderView {
        session: None,
        fragments: Seq::empty(),
        templates: BankView { templates: Seq::empty(), last_key: None },
        routes: Seq::empty(),
    }
}

// ---------------------------------------------------------------------
// Frame processing
// ---------------------------------------------------------------------

/// The warning for a profile the decoder does not know: the text
/// `unknown profile 0x` and four lowercase hex digits.
pub open spec fn unknown_profile_text(code: u16) -> Seq<char> {
    "unknown profile 0x"@ + hex_text(code as nat, 4)
}

fn unknown_profile_warning(code: u16) -> (s: String)
    ensures
        s@ == unknown_profile_text(code),
{
    let mut s = "unknown profile 0x".to_owned();
    push_hex(&mut s, code as u64, 4);
    s
}

/// A hello opens (or reopens) the session with the meter epoch and
/// profile it carries; a missing epoch reads as 0, a missing profile as the
/// default one, and an unknown profile is warned about.
pub open spec fn spec_hello(dec: DecoderView, payload: Seq<u8>, session_id: u16, diag: DiagnosticsView) -> (DecoderView, DiagnosticsView) {
    let (re, p) = spec_read_u32(payload, 0);
    let meter_epoch = match re { Ok(v) => v, Err(_) => 0u32 };
    let negotiated_profile = match spec_read_u16(payload, p).0 { Ok(v) => v, Err(_) => DEFAULT_PROFILE };
    let diag2 = if spec_known_profile(negotiated_profile) { diag } else { spec_warn(diag, unknown_profile_text(negotiated_profile)) };
    (DecoderView { session: Some(SessionView { session_id, meter_epoch, negotiated_profile, open: true }), ..dec }, diag2)
}

/// Frames other than hellos need an open session with their id.
pub open spec fn spec_ensure_session(session: Option<SessionView>, actual: u16) -> Result<(), GridError> {
    match session {
        None => Err(GridError::MissingSession),
        Some(s) => if !s.open {
            Err(GridError::MissingSession)
        } else if s.session_id != actual {
            Err(GridError::SessionMismatch { expected: s.session_id, actual })
        } else {
            Ok(())
        },
    }
}

/// The summary a batch records for each processed frame.
pub open spec fn summary_of(f: FrameView) -> FrameSummary {
    FrameSummary {
        kind: f.kind,
        session_id: f.session_id,
        sequence: f.sequence,
        payload_len: f.payload.len() as usize,
        was_fragment: fragmented(f),
    }
}

/// A template frame: the control form is tried first; when it fails the
/// payload is installed as a plain template.
#[verifier::opaque]
pub open spec fn spec_template_frame(dec: DecoderView, payload: Seq<u8>, b: BatchView) -> (Result<(), GridError>, DecoderView, BatchView) {
    let (r, bank1, d1) = spec_apply_control(dec.templates, payload, b.diagnostics);
    match r {
        Ok(_) => (Ok(()), DecoderView { templates: bank1, ..dec }, BatchView { diagnostics: d1, ..b }),
        Err(_) => {
            let (r2, bank2, d2) = spec_install_payload(bank1, payload, d1);
            (r2, DecoderView { templates: bank2, ..dec }, BatchView { diagnostics: d2, ..b })
        },
    }
}

/// A reading frame adds its readout to the batch.
#[verifier::opaque]
pub open spec fn spec_reading_frame(dec: DecoderView, payload: Seq<u8>, b: BatchView) -> (Result<(), GridError>, DecoderView, BatchView) {
    let (r, bank1, d1) = spec_decode_reading(payload, dec.templates, b.diagnostics);
    let dec2 = DecoderView { templates: bank1, ..dec };
    match r {
        Ok(ro) => (Ok(()), dec2, BatchView { readings: b.readings.push(ro), diagnostics: d1, ..b }),
        Err(e) => (Err(e), dec2, BatchView { diagnostics: d1, ..b }),
    }
}

/// A route frame adds its events to the batch.
#[verifier::opaque]
pub open spec fn spec_route_frame(dec: DecoderView, payload: Seq<u8>, b: BatchView) -> (Result<(), GridError>, DecoderView, BatchView) {
    let (r, routes1, d1) = spec_apply_route(dec.routes, payload, b.diagnostics);
    let dec2 = DecoderView { routes: routes1, ..dec };
    match r {
        Ok(evs) => (Ok(()), dec2, BatchView { route_events: b.route_events + evs, diagnostics: d1, ..b }),
        Err(e) => (Err(e), dec2, BatchView { diagnostics: d1, ..b }),
    }
}

/// A script frame adds its program to the batch.
#[verifier::opaque]
pub open spec fn spec_script_frame(dec: DecoderView, payload: Seq<u8>, b: BatchView) -> (Result<(), GridError>, DecoderView, BatchView) {
    match spec_parse_script(payload) {
        Ok(p) => (Ok(()), dec, BatchView {
            script_programs: b.script_programs.push(p),
            diagnostics: DiagnosticsView { scripts_decoded: b.diagnostics.scripts_decoded + 1, ..b.diagnostics },
            ..b
        }),
        Err(e) => (Err(e), dec, b),
    }
}

/// Processing one whole frame: its summary is recorded, then the frame
/// acts by its kind. Hellos open the session; frames of other known kinds
/// need the session; acks and clocks only check it; unknown kinds are
/// refused.
#[verifier::opaque]
pub open spec fn spec_process(dec: DecoderView, f: FrameView, b: BatchView) -> (Result<(), GridError>, DecoderView, BatchView) {
    let b1 = BatchView { frames: b.frames.push(summary_of(f)), ..b };
    match f.kind {
        FrameKind::Hello => {
            let (dec2, diag2) = spec_hello(dec, f.payload, f.session_id, b1.diagnostics);
            (Ok(()), dec2, BatchView { diagnostics: diag2, ..b1 })
        },
        FrameKind::Unknown(k) => (Err(GridError::UnsupportedFrameKind(k)), dec, b1),
        _ => match spec_ensure_session(dec.session, f.session_id) {
            Err(e) => (Err(e), dec, b1),
            Ok(_) => match f.kind {
                FrameKind::Template => spec_template_frame(dec, f.payload, b1),
                FrameKind::Reading => spec_reading_frame(dec, f.payload, b1),
                FrameKind::Route => spec_route_frame(dec, f.payload, b1),
                FrameKind::Script => spec_script_frame(dec, f.payload, b1),
                _ => (Ok(()), dec, b1),
            },
        },
    }
}

/// Each decoding counter moves up by at most one; frames seen and
/// fragments completed stay.
pub open spec fn counters_step(a: DiagnosticsView, b: DiagnosticsView) -> bool {
    &&& b.frames_seen == a.frames_seen
    &&& b.fragments_completed == a.fragments_completed
    &&& a.templates_installed <= b.templates_installed <= a.templates_installed + 1
    &&& a.templates_compacted <= b.templates_compacted <= a.templates_compacted + 1
    &&& a.readings_decoded <= b.readings_decoded <= a.readings_decoded + 1
    &&& a.route_events <= b.route_events <= a.route_events + 1
    &&& a.scripts_decoded <= b.scripts_decoded <= a.scripts_decoded + 1
}

/// Every counter other than `frames_seen` stays at most `n`.
pub open spec fn counters_within(d: DiagnosticsView, n: nat) -> bool {
    &&& d.fragments_completed <= n
    &&& d.templates_installed <= n
    &&& d.templates_compacted <= n
    &&& d.readings_decoded <= n
    &&& d.route_events <= n
    &&& d.scripts_decoded <= n
}

/// Frames `i..` of a stream offered in turn: each is counted, offered to
/// the fragment assembler, and processed when whole; the first error ends
/// the stream, keeping what the decoder learned before it. At the end the
/// batch carries the id of the session then open.
#[verifier::opaque]
pub open spec fn spec_ingest_frames(dec: DecoderView, frames: Seq<FrameView>, i: int, b: BatchView) -> (Result<BatchView, GridError>, DecoderView)
    decreases frames.len() - i,
{
    if i < 0 || i >= frames.len() {
        (Ok(BatchView {
            session_id: match dec.session {
                Some(s) => Some(s.session_id),
                None => b.session_id,
            },
            ..b
        }), dec)
    } else {
        let b1 = BatchView { diagnostics: DiagnosticsView { frames_seen: b.diagnostics.frames_seen + 1, ..b.diagnostics }, ..b };
        let (r, slots, d1) = spec_push(dec.fragments, frames[i], b1.diagnostics);
        let dec1 = DecoderView { fragments: slots, ..dec };
        let b2 = BatchView { diagnostics: d1, ..b1 };
        match r {
            Err(e) => (Err(e), dec1),
            Ok(None) => spec_ingest_frames(dec1, frames, i + 1, b2),
            Ok(Some(whole)) => {
                let (r2, dec2, b3) = spec_process(dec1, whole, b2);
                match r2 {
                    Err(e) => (Err(e), dec2),
                    Ok(_) => spec_ingest_frames(dec2, frames, i + 1, b3),
                }
            },
        }
    }
}

/// Ingesting a stream: its frames are parsed, then offered in turn to a
/// fresh batch; a stream that does not parse changes nothing.
pub open spec fn spec_ingest(dec: DecoderView, data: Seq<u8>) -> (Result<BatchView, GridError>, DecoderView) {
    match spec_parse_frames(data) {
        Err(e) => (Err(e), dec),
        Ok(frames) => spec_ingest_frames(dec, frames, 0, empty_batch()),
    }
}

#[derive(Debug, Clone)]
pub struct Decoder {
    session: Option<SessionState>,
    fragments: FragmentAssembler,
    templates: TemplateBank,
    routes: RouteTable,
}

impl View for Decoder {
    type V = DecoderView;

    closed spec fn view(&self) -> DecoderView {
        DecoderView {
            session: match self.session {
                Some(s) => Some(s@),
                None => None,
            },
            fragments: self.fragments@,
            templates: self.templates@,
            routes: self.routes@,
        }
    }
}

impl Decoder {
    pub fn new() -> (d: Self)
        ensures
            d@ == fresh_decoder(),
    {
        Decoder {
            session: None,
            fragments: FragmentAssembler::new(),
            templates: TemplateBank::new(),
            routes: RouteTable::new(),
        }
    }

    pub fn ingest_stream(&mut self, data: &[u8]) -> (r: Result<DecodedBatch, GridError>)
        ensures
            (match r {
                Ok(b) => Ok::<BatchView, GridError>(b@),
                Err(e) => Err(e),
            }, final(self)@) == spec_ingest(old(self)@, data@),
    {
        let mut frames = parse_frames(data)?;
        let ghost all = frames_view(frames@);
        let mut batch = DecodedBatch::new();
        let ghost mut i: int = 0;
        proof { assert(frames_view(frames@) =~= all.skip(0)); }
        while frames.len() > 0
            invariant
                0 <= i <= all.len(),
                all.len() <= MAX_FRAMES + 1,
                frames_view(frames@) == all.skip(i),
                batch@.diagnostics.frames_seen == i,
                counters_within(batch@.diagnostics, i as nat),
                spec_ingest(old(self)@, data@) == spec_ingest_frames(self@, all, i, batch@),
            decreases all.len() - i,
        {
            let ghost before = frames@;
            let ghost dec0 = self@;
            let ghost b0 = batch@;
            let frame = frames.remove(0);
            proof {
                assert(frames_view(before)[0] == before[0]@);
                assert(frames_view(before).len() == before.len());
                assert(i < all.len());
                assert(all.skip(i)[0] == all[i]);
                assert(frame@ == all[i]);
                assert forall|j: int| 0 <= j < frames@.len() implies #[trigger] frames_view(frames@)[j] == all.skip(i + 1)[j] by {
                    assert(frames@[j] == before[j + 1]);
                    assert(frames_view(before)[j + 1] == before[j + 1]@);
                    assert(all.skip(i)[j + 1] == all[i + j + 1]);
                }
                assert(frames_view(frames@) =~= all.skip(i + 1));
                reveal(spec_ingest_frames);
            }
            batch.diagnostics.frames_seen = batch.diagnostics.frames_seen + 1;
            let pushed = self.fragments.push(frame, &mut batch.diagnostics)?;
            match pushed {
                Some(complete) => {
                    self.process_frame(complete, &mut batch)?;
                },
                None => {},
            }
            proof { i = i + 1; }
        }
        proof {
            assert(i == all.len());
            reveal(spec_ingest_frames);
        }
        match &self.session {
            Some(session) => {
                batch.session_id = Some(session.session_id);
            },
            None => {},
        }
        Ok(batch)
    }

    fn process_frame(&mut self, frame: Frame, batch: &mut DecodedBatch) -> (r: Result<(), GridError>)
        requires
            counters_within(old(batch)@.diagnostics, (usize::MAX - 1) as nat),
        ensures
            (r, final(self)@, final(batch)@) == spec_process(old(self)@, frame@, old(batch)@),
            counters_step(old(batch)@.diagnostics, final(batch)@.diagnostics),
    {
        reveal(spec_process);
        let ghost fv = frame@;
        batch.frames.push(FrameSummary {
            kind: frame.kind,
            session_id: frame.session_id,
            sequence: frame.sequence,
            payload_len: frame.summary_payload_len(),
            was_fragment: frame.is_fragmented(),
        });
        match frame.kind {
            FrameKind::Hello => {
                self.handle_hello(frame.payload.as_slice(), frame.session_id, &mut batch.diagnostics);
                Ok(())
            },
            FrameKind::Unknown(kind) => Err(GridError::UnsupportedFrameKind(kind)),
            FrameKind::Template => {
                self.ensure_session(frame.session_id)?;
                self.template_frame(frame.payload.as_slice(), batch)
            },
            FrameKind::Reading => {
                self.ensure_session(frame.session_id)?;
                self.reading_frame(frame.payload.as_slice(), batch)
            },
            FrameKind::Route => {
                self.ensure_session(frame.session_id)?;
                self.route_frame(frame.payload.as_slice(), batch)
            },
            FrameKind::Script => {
                self.ensure_session(frame.session_id)?;
                self.script_frame(frame.payload.as_slice(), batch)
            },
            FrameKind::Ack | FrameKind::Clock => {
                self.ensure_session(frame.session_id)?;
                Ok(())
            },
        }
    }

    fn template_frame(&mut self, payload: &[u8], batch: &mut DecodedBatch) -> (r: Result<(), GridError>)
        requires
            counters_within(old(batch)@.diagnostics, (usize::MAX - 1) as nat),
        ensures
            (r, final(self)@, final(batch)@) == spec_template_frame(old(self)@, payload@, old(batch)@),
            counters_step(old(batch)@.diagnostics, final(batch)@.diagnostics),
    {
        reveal(spec_template_frame);
        match self.templates.apply_control(payload, &mut batch.diagnostics) {
            Ok(()) => Ok(()),
            Err(_) => self.templates.install_from_payload(payload, &mut batch.diagnostics),
        }
    }

    fn reading_frame(&mut self, payload: &[u8], batch: &mut DecodedBatch) -> (r: Result<(), GridError>)
        requires
            counters_within(old(batch)@.diagnostics, (usize::MAX - 1) as nat),
        ensures
            (r, final(self)@, final(batch)@) == spec_reading_frame(old(self)@, payload@, old(batch)@),
            counters_step(old(batch)@.diagnostics, final(batch)@.diagnostics),
    {
        reveal(spec_reading_frame);
        let ghost before = batch.readings@;
        let readout = decode_reading(payload, &mut self.templates, &mut batch.diagnostics)?;
        batch.readings.push(readout);
        proof { assert(readouts_view(batch.readings@) =~= readouts_view(before).push(readout@)); }
        Ok(())
    }

    fn route_frame(&mut self, payload: &[u8], batch: &mut DecodedBatch) -> (r: Result<(), GridError>)
        requires
            counters_within(old(batch)@.diagnostics, (usize::MAX - 1) as nat),
        ensures
            (r, final(self)@, final(batch)@) == spec_route_frame(old(self)@, payload@, old(batch)@),
            counters_step(old(batch)@.diagnostics, final(batch)@.diagnostics),
    {
        reveal(spec_route_frame);
        let mut events = self.routes.apply_route_message(payload, &mut batch.diagnostics)?;
        let ghost before = batch.route_events@;
        let ghost added = events@;
        batch.route_events.append(&mut events);
        proof { assert(events_view(batch.route_events@) =~= events_view(before) + events_view(added)); }
        Ok(())
    }

    fn script_frame(&mut self, payload: &[u8], batch: &mut DecodedBatch) -> (r: Result<(), GridError>)
        requires
            counters_within(old(batch)@.diagnostics, (usize::MAX - 1) as nat),
        ensures
            (r, final(self)@, final(batch)@) == spec_script_frame(old(self)@, payload@, old(batch)@),
            counters_step(old(batch)@.diagnostics, final(batch)@.diagnostics),
    {
        reveal(spec_script_frame);
        let script = parse_script(payload)?;
        let ghost before = batch.script_programs@;
        batch.diagnostics.scripts_decoded = batch.diagnostics.scripts_decoded + 1;
        batch.script_programs.push(script);
        proof { assert(programs_view(batch.script_programs@) =~= programs_view(before).push(script@)); }
        Ok(())
    }

    fn handle_hello(&mut self, payload: &[u8], session_id: u16, diagnostics: &mut Diagnostics)
        ensures
            (final(self)@, final(diagnostics)@) == spec_hello(old(self)@, payload@, session_id, old(diagnostics)@),
    {
        let mut cursor = ByteCursor::new(payload);
        let meter_epoch = match cursor.read_u32_le() {
            Ok(v) => v,
            Err(_) => 0,
        };
        let negotiated_profile = match cursor.read_u16_le() {
            Ok(v) => v,
            Err(_) => DEFAULT_PROFILE,
        };
        if !is_known_profile(negotiated_profile) {
            diagnostics.warn(unknown_profile_warning(negotiated_profile));
        }
        self.session = Some(SessionState { session_id, meter_epoch, negotiated_profile, open: true });
    }

    fn ensure_session(&self, actual: u16) -> (r: Result<(), GridError>)
        ensures
            r == spec_ensure_session(self@.session, actual),
    {
        match &self.session {
            None => Err(GridError::MissingSession),
            Some(session) => {
                if !session.open {
                    return Err(GridError::MissingSession);
                }
                if session.session_id != actual {
                    return Err(GridError::SessionMismatch { expected: session.session_id, actual });
                }
                Ok(())
            },
        }
    }

    pub fn pending_fragments(&self) -> (n: usize)
        ensures
            n == self@.fragments.len(),
    {
        self.fragments.pending_count()
    }

    pub fn template_count(&self) -> (n: usize)
        ensures
            n == self@.templates.templates.len(),
    {
        self.templates.len()
    }

    pub fn route_count(&self) -> (n: usize)
        ensures
            n == self@.routes.len(),
    {
        self.routes.len()
    }
}

impl Default for Decoder {
    fn default() -> (d: Self)
        ensures
            d@ == fresh_decoder(),
    {
        Decoder::new()
    }
}


/// The decoder's dictionaries hold each template key and each route pair
/// at most once, every template field is one to eight bytes wide, and
/// every open fragment slot is well formed.
pub open spec fn tables_sound(dec: DecoderView) -> bool {
    &&& keys_unique(dec.templates.templates)
    &&& bank_widths_ok(dec.templates.templates)
    &&& pairs_unique(dec.routes)
    &&& slots_wf(dec.fragments)
}

proof fn lemma_process_keeps_tables(dec: DecoderView, f: FrameView, b: BatchView)
    requires
        tables_sound(dec),
    ensures
        tables_sound(spec_process(dec, f, b).1),
{
    reveal(spec_process);
    reveal(spec_template_frame);
    reveal(spec_reading_frame);
    reveal(spec_route_frame);
    reveal(spec_script_frame);
    let b1 = BatchView { frames: b.frames.push(summary_of(f)), ..b };
    let (_r, bank1, d1) = spec_apply_control(dec.templates, f.payload, b1.diagnostics);
    law_bank_keys_stay_unique(dec.templates, f.payload, b1.diagnostics);
    law_bank_keys_stay_unique(bank1, f.payload, d1);
    law_bank_widths_stay_ok(dec.templates, f.payload, b1.diagnostics);
    law_bank_widths_stay_ok(bank1, f.payload, d1);
    law_route_pairs_stay_unique(dec.routes, f.payload, b1.diagnostics);
}

proof fn lemma_ingest_keeps_tables(dec: DecoderView, frames: Seq<FrameView>, i: int, b: BatchView)
    requires
        tables_sound(dec),
    ensures
        tables_sound(spec_ingest_frames(dec, frames, i, b).1),
    decreases frames.len() - i,
{
    reveal(spec_ingest_frames);
    if 0 <= i < frames.len() {
        let b1 = BatchView { diagnostics: DiagnosticsView { frames_seen: b.diagnostics.frames_seen + 1, ..b.diagnostics }, ..b };
        law_reassembled_within_limit(dec.fragments, frames[i], b1.diagnostics);
        let (r, slots, d1) = spec_push(dec.fragments, frames[i], b1.diagnostics);
        let dec1 = DecoderView { fragments: slots, ..dec };
        let b2 = BatchView { diagnostics: d1, ..b1 };
        match r {
            Err(_) => {},
            Ok(None) => lemma_ingest_keeps_tables(dec1, frames, i + 1, b2),
            Ok(Some(whole)) => {
                lemma_process_keeps_tables(dec1, whole, b2);
                let (r2, dec2, b3) = spec_process(dec1, whole, b2);
                if r2 is Ok {
                    lemma_ingest_keeps_tables(dec2, frames, i + 1, b3);
                }
            },
        }
    }
}

/// A fresh decoder holds no duplicate template key or route pair, no
/// field of an unsupported width and no ill-formed fragment slot, and
/// ingesting any stream, whether it succeeds or fails, keeps it so.
pub proof fn law_decoder_tables_stay_sound(dec: DecoderView, data: Seq<u8>)
    requires
        tables_sound(dec),
    ensures
        tables_sound(fresh_decoder()),
        tables_sound(spec_ingest(dec, data).1),
{
    if spec_parse_frames(data) is Ok {
        lemma_ingest_keeps_tables(dec, spec_parse_frames(data)->Ok_0, 0, empty_batch());
    }
}


/// Only a hello changes the session, and it always opens one with its own
/// id; any other frame is processed only under an open session with the
/// frame's id.
pub proof fn law_session_gate(dec: DecoderView, f: FrameView, b: BatchView)
    ensures
        f.kind is Hello ==> (spec_process(dec, f, b).0 is Ok
            && (spec_process(dec, f, b).1.session matches Some(s) && s.open && s.session_id == f.session_id)),
        !(f.kind is Hello) ==> spec_process(dec, f, b).1.session == dec.session,
        !(f.kind is Hello) && spec_process(dec, f, b).0 is Ok ==> (dec.session matches Some(s) && s.open
            && s.session_id == f.session_id),
{
    reveal(spec_process);
    reveal(spec_template_frame);
    reveal(spec_reading_frame);
    reveal(spec_route_frame);
    reveal(spec_script_frame);
}

} // verus!
