//! GridPulse decodes low-bandwidth smart-grid mesh telemetry.
//!
//! The decoder is staged: frames, fragments, sessions, dictionaries,
//! measurements, routes, scripts, and replay analysis. Each stage is a
//! function on bytes whose result is stated by a specification over the
//! bytes it reads.

pub mod analytics;
pub mod catalog;
pub mod error;
pub mod cursor;
pub mod crc;
pub mod frame;
pub mod fragment;
pub mod tlv;
pub mod model;
pub mod template;
pub mod measurements;
pub mod replay;
pub mod route;
pub mod scripts;
pub mod session;

pub use crate::error::{GridError, Result};
pub use crate::model::{DecodedBatch, ReplayReport, ScriptProgram};
pub use crate::session::Decoder;

use vstd::prelude::*;
use crate::error::view_res;
use crate::frame::{Frame, FrameView, frames_view, spec_parse_frames};
use crate::model::{BatchView, ProgramView};
use crate::replay::{ReplayRunner, spec_run};
use crate::scripts::spec_parse_script;
use crate::session::{fresh_decoder, spec_ingest};

verus! {

/// Parse a stream of GridPulse mesh frames using a fresh decoder.
pub fn parse(data: &[u8]) -> (r: Result<DecodedBatch>)
    ensures
        view_res(r) == spec_ingest(fresh_decoder(), data@).0,
{
    let mut decoder = Decoder::new();
    decoder.ingest_stream(data)
}

/// Parse a stream with replay-oriented staging across segments and sessions.
pub fn replay(data: &[u8]) -> (r: Result<ReplayReport>)
    ensures
        r is Ok,
        r->Ok_0@ == spec_run(fresh_decoder(), data@).0,
{
    let mut runner = ReplayRunner::new();
    runner.run(data)
}

/// Parse only the embedded field-crew script language.
pub fn parse_script(data: &[u8]) -> (r: Result<ScriptProgram>)
    ensures
        view_res(r) == spec_parse_script(data@),
{
    scripts::parse_script(data)
}

/// Parse one or more frames, dropping any semantic processing.
pub fn parse_frames(data: &[u8]) -> (r: Result<Vec<Frame>>)
    ensures
        (match r {
            Ok(v) => Ok::<Seq<FrameView>, GridError>(frames_view(v@)),
            Err(e) => Err(e),
        }) == spec_parse_frames(data@),
{
    frame::parse_frames(data)
}

} // verus!
