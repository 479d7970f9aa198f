use vstd::prelude::*;
use crate::crc::{folded_checksum, spec_folded_checksum};
use crate::cursor::{ByteCursor, spec_remaining, le16};
use crate::error::GridError;
use crate::model::{ReplayReport, ReportView, batches_view, empty_report};
use crate::session::{Decoder, DecoderView, fresh_decoder, spec_ingest};

verus! {

/// A replay stops after this many segments plus one.
pub const MAX_SEGMENTS: usize = 512;

/// Whether a stream opens with the replay marker `GPLR`.
pub open spec fn has_replay_marker(d: Seq<u8>) -> bool {
    d.len() >= 4 && d[0] == 0x47 && d[1] == 0x50 && d[2] == 0x4c && d[3] == 0x52
}

/// A segment's outcome added to a report: a decoded batch is kept and
/// counted as accepted, a failed one is counted as rejected.
pub open spec fn record_segment(rep: ReportView, r: Result<crate::model::BatchView, GridError>) -> ReportView {
    match r {
        Ok(b) => ReportView { accepted_segments: rep.accepted_segments + 1, batches: rep.batches.push(b), ..rep },
        Err(_) => ReportView { rejected_segments: rep.rejected_segments + 1, ..rep },
    }
}

/// Segments from `p`: each is a two-byte length and that many bytes (cut
/// to what remains), ingested by the same decoder in turn, until fewer than
/// two bytes remain or more than `MAX_SEGMENTS` segments have been counted.
pub open spec fn spec_segments(dec: DecoderView, d: Seq<u8>, p: int, rep: ReportView) -> (ReportView, DecoderView)
    decreases d.len() - p,
{
    if p < 0 || spec_remaining(d, p) < 2 {
        (rep, dec)
    } else {
        let declared = le16(d.subrange(p, p + 2)) as int;
        let q = p + 2;
        let len = if declared < spec_remaining(d, q) { declared } else { spec_remaining(d, q) };
        let (r, dec2) = spec_ingest(dec, d.subrange(q, q + len));
        let rep2 = record_segment(rep, r);
        if rep2.accepted_segments + rep2.rejected_segments > MAX_SEGMENTS {
            (rep2, dec2)
        } else {
            spec_segments(dec2, d, q + len, rep2)
        }
    }
}

/// A replay run: the report carries the folded checksum of the whole
/// input; a stream marked `GPLR` is replayed segment by segment, any other
/// stream is ingested whole as one segment.
pub open spec fn spec_run(dec: DecoderView, d: Seq<u8>) -> (ReportView, DecoderView) {
    let rep0 = ReportView { fingerprint: spec_folded_checksum(d), ..empty_report() };
    if has_replay_marker(d) {
        spec_segments(dec, d, 4, rep0)
    } else {
        let (r, dec2) = spec_ingest(dec, d);
        (record_segment(rep0, r), dec2)
    }
}

pub struct ReplayRunner {
    decoder: Decoder,
}

impl View for ReplayRunner {
    type V = DecoderView;

    closed spec fn view(&self) -> DecoderView {
        self.decoder@
    }
}

impl ReplayRunner {
    pub fn new() -> (r: Self)
        ensures
            r@ == fresh_decoder(),
    {
        ReplayRunner { decoder: Decoder::new() }
    }

    /// Replays a stream. The run itself never fails: segments that do not
    /// decode are counted as rejected.
    pub fn run(&mut self, data: &[u8]) -> (r: Result<ReplayReport, GridError>)
        ensures
            r is Ok,
            (r->Ok_0@, final(self)@) == spec_run(old(self)@, data@),
    {
        let mut cursor = ByteCursor::new(data);
        let mut report = ReplayReport::new();
        report.fingerprint = folded_checksum(data);
        let ghost rep0 = report@;
        proof { assert(rep0 == (ReportView { fingerprint: spec_folded_checksum(data@), ..empty_report() })); }
        if data.len() >= 4 && data[0] == 0x47 && data[1] == 0x50 && data[2] == 0x4c && data[3] == 0x52 {
            cursor.seek(4)?;
            while cursor.remaining() >= 2
                invariant_except_break
                    cursor.data() == data@,
                    4 <= cursor.pos() <= data@.len(),
                    report.accepted_segments + report.rejected_segments <= MAX_SEGMENTS,
                    spec_run(old(self)@, data@) == spec_segments(self@, data@, cursor.pos(), report@),
                ensures
                    spec_run(old(self)@, data@) == (report@, self@),
                decreases data@.len() - cursor.pos(),
            {
                let ghost p = cursor.pos();
                let declared = cursor.read_u16_le()? as usize;
                let rem = cursor.remaining();
                let len = if declared < rem { declared } else { rem };
                let segment = cursor.take(len)?;
                let ghost before = report.batches@;
                match self.decoder.ingest_stream(segment) {
                    Ok(batch) => {
                        report.accepted_segments = report.accepted_segments + 1;
                        report.batches.push(batch);
                        proof { assert(batches_view(report.batches@) =~= batches_view(before).push(batch@)); }
                    },
                    Err(_) => {
                        report.rejected_segments = report.rejected_segments + 1;
                    },
                }
                if report.accepted_segments + report.rejected_segments > MAX_SEGMENTS {
                    break;
                }
            }
        } else {
            let ghost before = report.batches@;
            match self.decoder.ingest_stream(data) {
                Ok(batch) => {
                    report.accepted_segments = 1;
                    report.batches.push(batch);
                    proof { assert(batches_view(report.batches@) =~= batches_view(before).push(batch@)); }
                },
                Err(_) => {
                    report.rejected_segments = 1;
                },
            }
        }
        Ok(report)
    }
}

impl Default for ReplayRunner {
    fn default() -> (r: Self)
        ensures
            r@ == fresh_decoder(),
    {
        ReplayRunner::new()
    }
}

/// A report keeps exactly the batches of its accepted segments.
pub proof fn law_batches_match_accepted(dec: DecoderView, d: Seq<u8>, p: int, rep: ReportView)
    requires
        rep.batches.len() == rep.accepted_segments,
    ensures
        spec_segments(dec, d, p, rep).0.batches.len() == spec_segments(dec, d, p, rep).0.accepted_segments,
    decreases d.len() - p,
{
    if !(p < 0 || spec_remaining(d, p) < 2) {
        let declared = le16(d.subrange(p, p + 2)) as int;
        let q = p + 2;
        let len = if declared < spec_remaining(d, q) { declared } else { spec_remaining(d, q) };
        let (r, dec2) = spec_ingest(dec, d.subrange(q, q + len));
        let rep2 = record_segment(rep, r);
        if rep2.accepted_segments + rep2.rejected_segments <= MAX_SEGMENTS {
            law_batches_match_accepted(dec2, d, q + len, rep2);
        }
    }
}

/// A replay of a stream without the replay marker is one parse of the
/// whole stream by a fresh decoder: its batch when the parse succeeds, one
/// rejected segment when it fails.
pub proof fn law_unmarked_replay_is_parse(d: Seq<u8>)
    requires
        !has_replay_marker(d),
    ensures
        ({
            let rep = spec_run(fresh_decoder(), d).0;
            &&& rep.fingerprint == spec_folded_checksum(d)
            &&& match spec_ingest(fresh_decoder(), d).0 {
                Ok(b) => rep.batches == seq![b] && rep.accepted_segments == 1 && rep.rejected_segments == 0,
                Err(_) => rep.batches.len() == 0 && rep.accepted_segments == 0 && rep.rejected_segments == 1,
            }
        }),
{
    match spec_ingest(fresh_decoder(), d).0 {
        Ok(b) => { assert(Seq::<crate::model::BatchView>::empty().push(b) =~= seq![b]); },
        Err(_) => {},
    }
}

/// A replay of a marked stream counts every segment it reads, at most
/// `MAX_SEGMENTS + 1` of them, keeps one batch per accepted segment, and
/// carries the folded checksum of the whole input.
pub proof fn law_marked_replay_counts(d: Seq<u8>)
    requires
        has_replay_marker(d),
    ensures
        spec_run(fresh_decoder(), d).0.batches.len() == spec_run(fresh_decoder(), d).0.accepted_segments,
        spec_run(fresh_decoder(), d).0.fingerprint == spec_folded_checksum(d),
        spec_run(fresh_decoder(), d).0.accepted_segments + spec_run(fresh_decoder(), d).0.rejected_segments <= MAX_SEGMENTS + 1,
{
    law_batches_match_accepted(fresh_decoder(), d, 4, ReportView { fingerprint: spec_folded_checksum(d), ..empty_report() });
    lemma_segments_keep_fingerprint(fresh_decoder(), d, 4, ReportView { fingerprint: spec_folded_checksum(d), ..empty_report() });
}

proof fn lemma_segments_keep_fingerprint(dec: DecoderView, d: Seq<u8>, p: int, rep: ReportView)
    ensures
        spec_segments(dec, d, p, rep).0.fingerprint == rep.fingerprint,
        rep.accepted_segments + rep.rejected_segments <= MAX_SEGMENTS ==> spec_segments(dec, d, p, rep).0.accepted_segments
            + spec_segments(dec, d, p, rep).0.rejected_segments <= MAX_SEGMENTS + 1,
    decreases d.len() - p,
{
    if !(p < 0 || spec_remaining(d, p) < 2) {
        let declared = le16(d.subrange(p, p + 2)) as int;
        let q = p + 2;
        let len = if declared < spec_remaining(d, q) { declared } else { spec_remaining(d, q) };
        let (r, dec2) = spec_ingest(dec, d.subrange(q, q + len));
        let rep2 = record_segment(rep, r);
        if rep2.accepted_segments + rep2.rejected_segments <= MAX_SEGMENTS {
            lemma_segments_keep_fingerprint(dec2, d, q + len, rep2);
        }
    }
}

} // verus!
