use vstd::prelude::*;
use crate::frame::FrameKind;
use crate::measurements::{Readout, ReadoutView};
use crate::route::{RouteEvent, RouteEventView, events_view};
use crate::scripts::{InstrView, ScriptInstruction, instrs_view};

verus! {

/// Limit on the warnings one batch keeps.
pub const MAX_WARNINGS: usize = 64;

#[derive(Debug, Clone)]
pub struct Diagnostics {
    pub frames_seen: usize,
    pub fragments_completed: usize,
    pub templates_installed: usize,
    pub templates_compacted: usize,
    pub readings_decoded: usize,
    pub route_events: usize,
    pub scripts_decoded: usize,
    pub warnings: Vec<String>,
}

/// The counters and the warning texts of a batch.
pub struct DiagnosticsView {
    pub frames_seen: nat,
    pub fragments_completed: nat,
    pub templates_installed: nat,
    pub templates_compacted: nat,
    pub readings_decoded: nat,
    pub route_events: nat,
    pub scripts_decoded: nat,
    pub warnings: Seq<Seq<char>>,
}

/// Texts of a list of strings.
pub open spec fn strings_view(v: Seq<String>) -> Seq<Seq<char>> {
    v.map_values(|s: String| s@)
}

impl View for Diagnostics {
    type V = DiagnosticsView;

    open spec fn view(&self) -> DiagnosticsView {
        DiagnosticsView {
            frames_seen: self.frames_seen as nat,
            fragments_completed: self.fragments_completed as nat,
            templates_installed: self.templates_installed as nat,
            templates_compacted: self.templates_compacted as nat,
            readings_decoded: self.readings_decoded as nat,
            route_events: self.route_events as nat,
            scripts_decoded: self.scripts_decoded as nat,
            warnings: strings_view(self.warnings@),
        }
    }
}

/// All counters at zero and no warnings.
pub open spec fn empty_diagnostics() -> DiagnosticsView {
    DiagnosticsView {
        frames_seen: 0,
        fragments_completed: 0,
        templates_installed: 0,
        templates_compacted: 0,
        readings_decoded: 0,
        route_events: 0,
        scripts_decoded: 0,
        warnings: Seq::empty(),
    }
}

/// A warning is kept while fewer than `MAX_WARNINGS` are held.
pub open spec fn spec_warn(d: DiagnosticsView, message: Seq<char>) -> DiagnosticsView {
    if d.warnings.len() < MAX_WARNINGS {
        DiagnosticsView { warnings: d.warnings.push(message), ..d }
    } else {
        d
    }
}

impl Diagnostics {
    pub(crate) fn new() -> (d: Self)
        ensures
            d@ == empty_diagnostics(),
    {
        let d = Diagnostics {
            frames_seen: 0,
            fragments_completed: 0,
            templates_installed: 0,
            templates_compacted: 0,
            readings_decoded: 0,
            route_events: 0,
            scripts_decoded: 0,
            warnings: Vec::new(),
        };
        proof { assert(d@.warnings =~= Seq::<Seq<char>>::empty()); }
        d
    }

    pub fn warn(&mut self, message: String)
        ensures
            final(self)@ == spec_warn(old(self)@, message@),
    {
        if self.warnings.len() < MAX_WARNINGS {
            let ghost before = self.warnings@;
            self.warnings.push(message);
            proof { assert(strings_view(self.warnings@) =~= strings_view(before).push(message@)); }
        }
    }
}

impl Default for Diagnostics {
    fn default() -> (d: Self)
        ensures
            d@ == empty_diagnostics(),
    {
        Diagnostics::new()
    }
}

#[derive(Debug, Clone)]
pub struct ScriptProgram {
    pub version: u8,
    pub instructions: Vec<ScriptInstruction>,
    pub max_depth: u8,
    pub declared_len: usize,
}

pub struct ProgramView {
    pub version: u8,
    pub instructions: Seq<InstrView>,
    pub max_depth: u8,
    pub declared_len: usize,
}

impl View for ScriptProgram {
    type V = ProgramView;

    open spec fn view(&self) -> ProgramView {
        ProgramView {
            version: self.version,
            instructions: instrs_view(self.instructions@),
            max_depth: self.max_depth,
            declared_len: self.declared_len,
        }
    }
}

/// Programs taken by their views.
pub open spec fn programs_view(v: Seq<ScriptProgram>) -> Seq<ProgramView> {
    v.map_values(|p: ScriptProgram| p@)
}

/// Readouts taken by their views.
pub open spec fn readouts_view(v: Seq<Readout>) -> Seq<ReadoutView> {
    v.map_values(|r: Readout| r@)
}

#[derive(Debug, Clone, Copy, PartialEq, Eq)]
pub struct FrameSummary {
    pub kind: FrameKind,
    pub session_id: u16,
    pub sequence: u16,
    pub payload_len: usize,
    pub was_fragment: bool,
}

#[derive(Debug, Clone)]
pub struct DecodedBatch {
    pub session_id: Option<u16>,
    pub frames: Vec<FrameSummary>,
    pub readings: Vec<Readout>,
    pub route_events: Vec<RouteEvent>,
    pub script_programs: Vec<ScriptProgram>,
    pub diagnostics: Diagnostics,
}

pub struct BatchView {
    pub session_id: Option<u16>,
    pub frames: Seq<FrameSummary>,
    pub readings: Seq<ReadoutView>,
    pub route_events: Seq<RouteEventView>,
    pub script_programs: Seq<ProgramView>,
    pub diagnostics: DiagnosticsView,
}

impl View for DecodedBatch {
    type V = BatchView;

    open spec fn view(&self) -> BatchView {
        BatchView {
            session_id: self.session_id,
            frames: self.frames@,
            readings: readouts_view(self.readings@),
            route_events: events_view(self.route_events@),
            script_programs: programs_view(self.script_programs@),
            diagnostics: self.diagnostics@,
        }
    }
}

/// A batch with nothing decoded yet.
pub open spec fn empty_batch() -> BatchView {
    BatchView {
        session_id: None,
        frames: Seq::empty(),
        readings: Seq::empty(),
        route_events: Seq::empty(),
        script_programs: Seq::empty(),
        diagnostics: empty_diagnostics(),
    }
}

impl DecodedBatch {
    pub fn new() -> (b: Self)
        ensures
            b@ == empty_batch(),
    {
        let b = DecodedBatch {
            session_id: None,
            frames: Vec::new(),
            readings: Vec::new(),
            route_events: Vec::new(),
            script_programs: Vec::new(),
            diagnostics: Diagnostics::new(),
        };
        proof {
            assert(b@.frames =~= Seq::<FrameSummary>::empty());
            assert(b@.readings =~= Seq::<ReadoutView>::empty());
            assert(b@.route_events =~= Seq::<RouteEventView>::empty());
            assert(b@.script_programs =~= Seq::<ProgramView>::empty());
        }
        b
    }
}

impl Default for DecodedBatch {
    fn default() -> (b: Self)
        ensures
            b@ == empty_batch(),
    {
        DecodedBatch::new()
    }
}

#[derive(Debug, Clone)]
pub struct ReplayReport {
    pub batches: Vec<DecodedBatch>,
    pub fingerprint: u32,
    pub accepted_segments: usize,
    pub rejected_segments: usize,
}

pub struct ReportView {
    pub batches: Seq<BatchView>,
    pub fingerprint: u32,
    pub accepted_segments: nat,
    pub rejected_segments: nat,
}

/// Batches taken by their views.
pub open spec fn batches_view(v: Seq<DecodedBatch>) -> Seq<BatchView> {
    v.map_values(|b: DecodedBatch| b@)
}

impl View for ReplayReport {
    type V = ReportView;

    open spec fn view(&self) -> ReportView {
        ReportView {
            batches: batches_view(self.batches@),
            fingerprint: self.fingerprint,
            accepted_segments: self.accepted_segments as nat,
            rejected_segments: self.rejected_segments as nat,
        }
    }
}

/// A report with no segments and a zero fingerprint.
pub open spec fn empty_report() -> ReportView {
    ReportView { batches: Seq::empty(), fingerprint: 0, accepted_segments: 0, rejected_segments: 0 }
}

impl ReplayReport {
    pub fn new() -> (r: Self)
        ensures
            r@ == empty_report(),
    {
        let r = ReplayReport { batches: Vec::new(), fingerprint: 0, accepted_segments: 0, rejected_segments: 0 };
        proof { assert(r@.batches =~= Seq::<BatchView>::empty()); }
        r
    }
}

impl Default for ReplayReport {
    fn default() -> (r: Self)
        ensures
            r@ == empty_report(),
    {
        ReplayReport::new()
    }
}

/// A batch never holds more than `MAX_WARNINGS` warnings.
pub proof fn law_warnings_capped(d: DiagnosticsView, message: Seq<char>)
    requires
        d.warnings.len() <= MAX_WARNINGS,
    ensures
        spec_warn(d, message).warnings.len() <= MAX_WARNINGS,
{
}

} // verus!
