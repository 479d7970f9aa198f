use vstd::prelude::*;
use crate::cursor::{ByteCursor, spec_read_u8, spec_read_u16, spec_read_var_u32, spec_take, lemma_var_u32_bounds};
use crate::error::GridError;
use crate::model::{ScriptProgram, ProgramView};

verus! {

/// Deepest nesting a script may use.
pub const MAX_SCRIPT_DEPTH: u8 = 12;
/// Most instructions one block may hold.
pub const MAX_BLOCK_INSTRUCTIONS: usize = 256;

#[derive(Debug)]
pub enum ScriptInstruction {
    SetTariff { meter_class: u8, tariff: u16 },
    OpenBreaker { feeder_id: u16, reason: u8 },
    CloseBreaker { feeder_id: u16, guard: u8 },
    Delay { milliseconds: u32 },
    EmitEvent { code: u16, payload: Vec<u8> },
    IfQualityBelow { threshold: u8, body: Vec<ScriptInstruction> },
    Repeat { count: u8, body: Vec<ScriptInstruction> },
    RouteSwitch { from: u16, to: u16, flags: u8 },
    AttachTemplate { template_id: u16, revision: u8 },
    Vendor { opcode: u8, payload: Vec<u8> },
}

/// An instruction with its payloads and bodies as sequences.
pub enum InstrView {
    SetTariff { meter_class: u8, tariff: u16 },
    OpenBreaker { feeder_id: u16, reason: u8 },
    CloseBreaker { feeder_id: u16, guard: u8 },
    Delay { milliseconds: u32 },
    EmitEvent { code: u16, payload: Seq<u8> },
    IfQualityBelow { threshold: u8, body: Seq<InstrView> },
    Repeat { count: u8, body: Seq<InstrView> },
    RouteSwitch { from: u16, to: u16, flags: u8 },
    AttachTemplate { template_id: u16, revision: u8 },
    Vendor { opcode: u8, payload: Seq<u8> },
}

/// An instruction taken by its view.
pub open spec fn instr_view(i: ScriptInstruction) -> InstrView
    decreases i,
{
    match i {
        ScriptInstruction::SetTariff { meter_class, tariff } => InstrView::SetTariff { meter_class, tariff },
        ScriptInstruction::OpenBreaker { feeder_id, reason } => InstrView::OpenBreaker { feeder_id, reason },
        ScriptInstruction::CloseBreaker { feeder_id, guard } => InstrView::CloseBreaker { feeder_id, guard },
        ScriptInstruction::Delay { milliseconds } => InstrView::Delay { milliseconds },
        ScriptInstruction::EmitEvent { code, payload } => InstrView::EmitEvent { code, payload: payload@ },
        ScriptInstruction::IfQualityBelow { threshold, body } => InstrView::IfQualityBelow {
            threshold,
            body: Seq::new(body@.len(), |k: int| if 0 <= k < body@.len() { instr_view(body@[k]) } else { InstrView::Delay { milliseconds: 0 } }),
        },
        ScriptInstruction::Repeat { count, body } => InstrView::Repeat {
            count,
            body: Seq::new(body@.len(), |k: int| if 0 <= k < body@.len() { instr_view(body@[k]) } else { InstrView::Delay { milliseconds: 0 } }),
        },
        ScriptInstruction::RouteSwitch { from, to, flags } => InstrView::RouteSwitch { from, to, flags },
        ScriptInstruction::AttachTemplate { template_id, revision } => InstrView::AttachTemplate { template_id, revision },
        ScriptInstruction::Vendor { opcode, payload } => InstrView::Vendor { opcode, payload: payload@ },
    }
}

impl View for ScriptInstruction {
    type V = InstrView;

    open spec fn view(&self) -> InstrView {
        instr_view(*self)
    }
}

fn clone_bytes(v: &Vec<u8>) -> (r: Vec<u8>)
    ensures
        r@ == v@,
{
    vstd::slice::slice_to_vec(v.as_slice())
}

fn clone_instr(i: &ScriptInstruction) -> (r: ScriptInstruction)
    ensures
        r@ == i@,
    decreases i,
{
    match i {
        ScriptInstruction::SetTariff { meter_class, tariff } => ScriptInstruction::SetTariff { meter_class: *meter_class, tariff: *tariff },
        ScriptInstruction::OpenBreaker { feeder_id, reason } => ScriptInstruction::OpenBreaker { feeder_id: *feeder_id, reason: *reason },
        ScriptInstruction::CloseBreaker { feeder_id, guard } => ScriptInstruction::CloseBreaker { feeder_id: *feeder_id, guard: *guard },
        ScriptInstruction::Delay { milliseconds } => ScriptInstruction::Delay { milliseconds: *milliseconds },
        ScriptInstruction::EmitEvent { code, payload } => ScriptInstruction::EmitEvent { code: *code, payload: clone_bytes(payload) },
        ScriptInstruction::IfQualityBelow { threshold, body } => {
            let copy = clone_body(i, body);
            proof { lemma_body_view(*i); }
            let r = ScriptInstruction::IfQualityBelow { threshold: *threshold, body: copy };
            proof { lemma_body_view(r); }
            r
        },
        ScriptInstruction::Repeat { count, body } => {
            let copy = clone_body(i, body);
            proof { lemma_body_view(*i); }
            let r = ScriptInstruction::Repeat { count: *count, body: copy };
            proof { lemma_body_view(r); }
            r
        },
        ScriptInstruction::RouteSwitch { from, to, flags } => ScriptInstruction::RouteSwitch { from: *from, to: *to, flags: *flags },
        ScriptInstruction::AttachTemplate { template_id, revision } => ScriptInstruction::AttachTemplate { template_id: *template_id, revision: *revision },
        ScriptInstruction::Vendor { opcode, payload } => ScriptInstruction::Vendor { opcode: *opcode, payload: clone_bytes(payload) },
    }
}

fn clone_body(parent: &ScriptInstruction, body: &Vec<ScriptInstruction>) -> (r: Vec<ScriptInstruction>)
    requires
        (parent matches ScriptInstruction::IfQualityBelow { body: b, .. } && b == body)
            || (parent matches ScriptInstruction::Repeat { body: b, .. } && b == body),
    ensures
        instrs_view(r@) == instrs_view(body@),
    decreases parent, 0int,
{
    let mut out: Vec<ScriptInstruction> = Vec::new();
    let mut k: usize = 0;
    while k < body.len()
        invariant
            k <= body@.len(),
            out@.len() == k,
            (parent matches ScriptInstruction::IfQualityBelow { body: b, .. } && b == body)
                || (parent matches ScriptInstruction::Repeat { body: b, .. } && b == body),
            forall|j: int| 0 <= j < k ==> instr_view(#[trigger] out@[j]) == instr_view(body@[j]),
        decreases body@.len() - k,
    {
        proof {
            assert(decreases_to!(*body => body@));
            assert(decreases_to!(body@ => body@[k as int]));
            if parent is IfQualityBelow {
                assert(decreases_to!(*parent => parent->IfQualityBelow_body));
            } else {
                assert(decreases_to!(*parent => parent->Repeat_body));
            }
            assert(decreases_to!(*parent => body@[k as int]));
        }
        let c = clone_instr(&body[k]);
        out.push(c);
        k = k + 1;
    }
    proof { assert(instrs_view(out@) =~= instrs_view(body@)); }
    out
}

impl Clone for ScriptInstruction {
    fn clone(&self) -> (r: Self)
        ensures
            r@ == self@,
    {
        clone_instr(self)
    }
}

/// Instructions taken by their views.
pub open spec fn instrs_view(v: Seq<ScriptInstruction>) -> Seq<InstrView> {
    Seq::new(v.len(), |k: int| instr_view(v[k]))
}

/// The body of a nesting instruction is the view of its vector.
pub proof fn lemma_body_view(i: ScriptInstruction)
    ensures
        i matches ScriptInstruction::IfQualityBelow { body, .. } ==> i@->IfQualityBelow_body == instrs_view(body@),
        i matches ScriptInstruction::Repeat { body, .. } ==> i@->Repeat_body == instrs_view(body@),
{
    match i {
        ScriptInstruction::IfQualityBelow { body, .. } => {
            assert(i@->IfQualityBelow_body =~= instrs_view(body@));
        },
        ScriptInstruction::Repeat { body, .. } => {
            assert(i@->Repeat_body =~= instrs_view(body@));
        },
        _ => {},
    }
}

// ---------------------------------------------------------------------
// The script format
// ---------------------------------------------------------------------

/// A byte-length-prefixed payload.
pub open spec fn spec_short_payload(d: Seq<u8>, p: int) -> (Result<Seq<u8>, GridError>, int) {
    let (r, p) = spec_read_u8(d, p);
    match r {
        Err(e) => (Err(e), p),
        Ok(len) => spec_take(d, p, len as int),
    }
}

/// The operands of an instruction that holds no block, read from `p`
/// (just past the opcode).
pub open spec fn spec_simple_instr(d: Seq<u8>, p: int, opcode: u8) -> (Result<InstrView, GridError>, int) {
    if opcode == 0x01 {
        let (r, p) = spec_read_u8(d, p);
        match r {
            Err(e) => (Err(e), p),
            Ok(meter_class) => {
                let (r, p) = spec_read_u16(d, p);
                match r {
                    Err(e) => (Err(e), p),
                    Ok(tariff) => (Ok(InstrView::SetTariff { meter_class, tariff }), p),
                }
            },
        }
    } else if opcode == 0x02 || opcode == 0x03 {
        let (r, p) = spec_read_u16(d, p);
        match r {
            Err(e) => (Err(e), p),
            Ok(feeder_id) => {
                let (r, p) = spec_read_u8(d, p);
                match r {
                    Err(e) => (Err(e), p),
                    Ok(b) => (Ok(if opcode == 0x02 {
                        InstrView::OpenBreaker { feeder_id, reason: b }
                    } else {
                        InstrView::CloseBreaker { feeder_id, guard: b }
                    }), p),
                }
            },
        }
    } else if opcode == 0x04 {
        let (r, p) = spec_read_var_u32(d, p);
        match r {
            Err(e) => (Err(e), p),
            Ok(milliseconds) => (Ok(InstrView::Delay { milliseconds }), p),
        }
    } else if opcode == 0x05 {
        let (r, p) = spec_read_u16(d, p);
        match r {
            Err(e) => (Err(e), p),
            Ok(code) => {
                let (r, p) = spec_short_payload(d, p);
                match r {
                    Err(e) => (Err(e), p),
                    Ok(payload) => (Ok(InstrView::EmitEvent { code, payload }), p),
                }
            },
        }
    } else if opcode == 0x08 {
        let (r, p) = spec_read_u16(d, p);
        match r {
            Err(e) => (Err(e), p),
            Ok(from) => {
                let (r, p) = spec_read_u16(d, p);
                match r {
                    Err(e) => (Err(e), p),
                    Ok(to) => {
                        let (r, p) = spec_read_u8(d, p);
                        match r {
                            Err(e) => (Err(e), p),
                            Ok(flags) => (Ok(InstrView::RouteSwitch { from, to, flags }), p),
                        }
                    },
                }
            },
        }
    } else if opcode == 0x09 {
        let (r, p) = spec_read_u16(d, p);
        match r {
            Err(e) => (Err(e), p),
            Ok(template_id) => {
                let (r, p) = spec_read_u8(d, p);
                match r {
                    Err(e) => (Err(e), p),
                    Ok(revision) => (Ok(InstrView::AttachTemplate { template_id, revision }), p),
                }
            },
        }
    } else if opcode >= 0x80 {
        let (r, p) = spec_short_payload(d, p);
        match r {
            Err(e) => (Err(e), p),
            Ok(payload) => (Ok(InstrView::Vendor { opcode, payload }), p),
        }
    } else {
        (Err(GridError::UnknownOpcode(opcode)), p)
    }
}

/// Reads never move back nor leave the data.
pub proof fn lemma_simple_instr_bounds(d: Seq<u8>, p: int, opcode: u8)
    requires
        0 <= p <= d.len(),
    ensures
        p <= spec_simple_instr(d, p, opcode).1 <= d.len(),
{
    if opcode == 0x04 {
        lemma_var_u32_bounds(d, p, 0, 0);
    }
}

/// The larger of two depths.
pub open spec fn max_u8(a: u8, b: u8) -> u8 {
    if a >= b { a } else { b }
}

/// A block at nesting `depth`: deeper than 12 is refused; otherwise the
/// deepest depth seen grows to `depth` and the instructions are read.
pub open spec fn spec_parse_block(d: Seq<u8>, p: int, depth: u8, maxd: u8) -> (Result<Seq<InstrView>, GridError>, u8)
    decreases d.len(), d.len() - p + 1,
{
    if depth > MAX_SCRIPT_DEPTH {
        (Err(GridError::ScriptMalformed("nesting too deep")), maxd)
    } else if p < 0 || p > d.len() {
        (Ok(Seq::empty()), max_u8(maxd, depth))
    } else {
        spec_instrs_from(d, p, depth, max_u8(maxd, depth), Seq::empty())
    }
}

/// Instructions from `p` to the end of the block, after `acc`. Opcodes 6
/// and 7 hold a byte operand and a length-prefixed nested block; more than
/// 256 instructions in one block are refused.
pub open spec fn spec_instrs_from(d: Seq<u8>, p: int, depth: u8, maxd: u8, acc: Seq<InstrView>) -> (Result<Seq<InstrView>, GridError>, u8)
    decreases d.len(), d.len() - p,
{
    if p < 0 || p >= d.len() {
        (Ok(acc), maxd)
    } else {
        let opcode = d[p];
        if opcode == 0x06 || opcode == 0x07 {
            let (r, p2) = spec_read_u8(d, p + 1);
            match r {
                Err(e) => (Err(e), maxd),
                Ok(operand) => {
                    let (r, p3) = spec_read_u8(d, p2);
                    match r {
                        Err(e) => (Err(e), maxd),
                        Ok(len) => {
                            let (r, p4) = spec_take(d, p3, len as int);
                            match r {
                                Err(e) => (Err(e), maxd),
                                Ok(block) => {
                                    let (rb, m2) = spec_parse_block(block, 0, (depth + 1) as u8, maxd);
                                    match rb {
                                        Err(e) => (Err(e), m2),
                                        Ok(body) => {
                                            let ins = if opcode == 0x06 {
                                                InstrView::IfQualityBelow { threshold: operand, body }
                                            } else {
                                                InstrView::Repeat { count: operand, body }
                                            };
                                            let acc2 = acc.push(ins);
                                            if acc2.len() > MAX_BLOCK_INSTRUCTIONS {
                                                (Err(GridError::ScriptMalformed("too many instructions")), m2)
                                            } else {
                                                spec_instrs_from(d, p4, depth, m2, acc2)
                                            }
                                        },
                                    }
                                },
                            }
                        },
                    }
                },
            }
        } else {
            proof { lemma_simple_instr_bounds(d, p + 1, opcode); }
            let (r, q) = spec_simple_instr(d, p + 1, opcode);
            match r {
                Err(e) => (Err(e), maxd),
                Ok(ins) => {
                    let acc2 = acc.push(ins);
                    if acc2.len() > MAX_BLOCK_INSTRUCTIONS {
                        (Err(GridError::ScriptMalformed("too many instructions")), maxd)
                    } else {
                        spec_instrs_from(d, q, depth, maxd, acc2)
                    }
                },
            }
        }
    }
}

/// A script: version, a declared body length, then the body (cut to the
/// bytes present) as a block at depth zero.
pub open spec fn spec_parse_script(d: Seq<u8>) -> Result<ProgramView, GridError> {
    if d.len() < 3 {
        Err(GridError::ScriptMalformed("script header missing"))
    } else {
        let version = d[0];
        let declared_len = spec_read_u16(d, 1).0->Ok_0;
        let body_len = if (declared_len as int) < d.len() - 3 { declared_len as int } else { d.len() - 3 };
        let body = d.subrange(3, 3 + body_len);
        let (r, max_depth) = spec_parse_block(body, 0, 0, 0);
        match r {
            Err(e) => Err(e),
            Ok(instructions) => Ok(ProgramView { version, instructions, max_depth, declared_len: declared_len as usize }),
        }
    }
}

// ---------------------------------------------------------------------
// Parsing
// ---------------------------------------------------------------------

fn read_short_payload(cursor: &mut ByteCursor<'_>) -> (r: Result<Vec<u8>, GridError>)
    ensures
        final(cursor).data() == old(cursor).data(),
        (match r {
            Ok(v) => Ok::<Seq<u8>, GridError>(v@),
            Err(e) => Err(e),
        }, final(cursor).pos()) == spec_short_payload(old(cursor).data(), old(cursor).pos()),
{
    let len = cursor.read_u8()? as usize;
    let bytes = cursor.take(len)?;
    Ok(vstd::slice::slice_to_vec(bytes))
}

fn parse_simple_instr(cursor: &mut ByteCursor<'_>, opcode: u8) -> (r: Result<ScriptInstruction, GridError>)
    requires
        opcode != 0x06 && opcode != 0x07,
    ensures
        final(cursor).data() == old(cursor).data(),
        (match r {
            Ok(i) => Ok::<InstrView, GridError>(i@),
            Err(e) => Err(e),
        }, final(cursor).pos()) == spec_simple_instr(old(cursor).data(), old(cursor).pos(), opcode),
{
    let instruction = match opcode {
        0x01 => {
            let meter_class = cursor.read_u8()?;
            let tariff = cursor.read_u16_le()?;
            ScriptInstruction::SetTariff { meter_class, tariff }
        },
        0x02 => {
            let feeder_id = cursor.read_u16_le()?;
            let reason = cursor.read_u8()?;
            ScriptInstruction::OpenBreaker { feeder_id, reason }
        },
        0x03 => {
            let feeder_id = cursor.read_u16_le()?;
            let guard = cursor.read_u8()?;
            ScriptInstruction::CloseBreaker { feeder_id, guard }
        },
        0x04 => {
            let milliseconds = cursor.read_var_u32()?;
            ScriptInstruction::Delay { milliseconds }
        },
        0x05 => {
            let code = cursor.read_u16_le()?;
            let payload = read_short_payload(cursor)?;
            ScriptInstruction::EmitEvent { code, payload }
        },
        0x08 => {
            let from = cursor.read_u16_le()?;
            let to = cursor.read_u16_le()?;
            let flags = cursor.read_u8()?;
            ScriptInstruction::RouteSwitch { from, to, flags }
        },
        0x09 => {
            let template_id = cursor.read_u16_le()?;
            let revision = cursor.read_u8()?;
            ScriptInstruction::AttachTemplate { template_id, revision }
        },
        0x80..=0xff => {
            let payload = read_short_payload(cursor)?;
            ScriptInstruction::Vendor { opcode, payload }
        },
        other => return Err(GridError::UnknownOpcode(other)),
    };
    Ok(instruction)
}

/// Parses the instructions of a block up to the end of the cursor's data,
/// nested blocks included, and records the deepest level reached.
fn parse_block(cursor: &mut ByteCursor<'_>, depth: u8, max_depth: &mut u8) -> (r: Result<Vec<ScriptInstruction>, GridError>)
    ensures
        (match r {
            Ok(v) => Ok::<Seq<InstrView>, GridError>(instrs_view(v@)),
            Err(e) => Err(e),
        }, *final(max_depth)) == spec_parse_block(old(cursor).data(), old(cursor).pos(), depth, *old(max_depth)),
        final(cursor).data() == old(cursor).data(),
        r is Ok ==> final(cursor).pos() == old(cursor).data().len(),
        depth > MAX_SCRIPT_DEPTH ==> r == Err::<Vec<ScriptInstruction>, GridError>(GridError::ScriptMalformed("nesting too deep"))
            && *final(max_depth) == *old(max_depth),
        r matches Ok(v) ==> v@.len() <= MAX_BLOCK_INSTRUCTIONS && all_shaped(instrs_view(v@), depth as nat)
            && *final(max_depth) as int == max_of(*old(max_depth) as int, depth + block_nest(instrs_view(v@))),
        *old(max_depth) <= MAX_SCRIPT_DEPTH ==> *final(max_depth) <= MAX_SCRIPT_DEPTH,
    decreases old(cursor).data().len(), 1int,
{
    proof { lemma_block_shaped(old(cursor).data(), old(cursor).pos(), depth, *old(max_depth)); }
    if depth > MAX_SCRIPT_DEPTH {
        return Err(GridError::ScriptMalformed("nesting too deep"));
    }
    if *max_depth < depth {
        *max_depth = depth;
    }
    let ghost d = old(cursor).data();
    let mut instructions: Vec<ScriptInstruction> = Vec::new();
    proof { assert(instrs_view(instructions@) =~= Seq::<InstrView>::empty()); }
    // The position's contract bounds it by the data, for the loop below.
    let _start = cursor.position();
    while !cursor.is_empty()
        invariant
            d == old(cursor).data(),
            cursor.data() == d,
            0 <= cursor.pos() <= d.len(),
            depth <= MAX_SCRIPT_DEPTH,
            *old(max_depth) <= MAX_SCRIPT_DEPTH ==> *max_depth <= MAX_SCRIPT_DEPTH,
            spec_parse_block(d, old(cursor).pos(), depth, *old(max_depth))
                == spec_instrs_from(d, cursor.pos(), depth, *max_depth, instrs_view(instructions@)),
        decreases d.len() - cursor.pos(),
    {
        let ghost p = cursor.pos();
        let ghost acc = instrs_view(instructions@);
        let opcode = cursor.read_u8()?;
        let instruction = if opcode == 0x06 || opcode == 0x07 {
            let operand = cursor.read_u8()?;
            let len = cursor.read_u8()? as usize;
            let block = cursor.take(len)?;
            let mut nested = ByteCursor::new(block);
            let body = parse_block(&mut nested, depth + 1, max_depth)?;
            if opcode == 0x06 {
                ScriptInstruction::IfQualityBelow { threshold: operand, body }
            } else {
                ScriptInstruction::Repeat { count: operand, body }
            }
        } else {
            proof { lemma_simple_instr_bounds(d, p + 1, opcode); }
            parse_simple_instr(cursor, opcode)?
        };
        proof {
            lemma_body_view(instruction);
            assert(instrs_view(instructions@.push(instruction)) =~= acc.push(instruction@));
        }
        instructions.push(instruction);
        if instructions.len() > MAX_BLOCK_INSTRUCTIONS {
            return Err(GridError::ScriptMalformed("too many instructions"));
        }
    }
    Ok(instructions)
}

/// Parses a crew script: version, declared length, then the body.
pub fn parse_script(data: &[u8]) -> (r: Result<ScriptProgram, GridError>)
    ensures
        (match r {
            Ok(p) => Ok::<ProgramView, GridError>(p@),
            Err(e) => Err(e),
        }) == spec_parse_script(data@),
        r is Ok ==> r->Ok_0.max_depth <= MAX_SCRIPT_DEPTH,
{
    let mut cursor = ByteCursor::new(data);
    if cursor.remaining() < 3 {
        return Err(GridError::ScriptMalformed("script header missing"));
    }
    let version = cursor.read_u8()?;
    let declared_len = cursor.read_u16_le()? as usize;
    let rem = cursor.remaining();
    let body_len = if declared_len < rem { declared_len } else { rem };
    let body = cursor.take(body_len)?;
    let mut body_cursor = ByteCursor::new(body);
    let mut max_depth: u8 = 0;
    let instructions = parse_block(&mut body_cursor, 0, &mut max_depth)?;
    Ok(ScriptProgram { version, instructions, max_depth, declared_len })
}

// ---------------------------------------------------------------------
// Instruction weights
// ---------------------------------------------------------------------

/// The smaller of two counts.
pub open spec fn min_int(a: int, b: int) -> int {
    if a <= b { a } else { b }
}

/// The cost of an instruction: fixed per kind, one per payload byte plus
/// one for events and vendor instructions, one per started second of delay
/// up to sixty plus one, and for blocks their body's weight (times the
/// repeat count, at most sixteen) plus a fixed cost.
pub open spec fn spec_weight(i: InstrView) -> int
    decreases i,
{
    match i {
        InstrView::SetTariff { .. } => 2,
        InstrView::OpenBreaker { .. } => 5,
        InstrView::CloseBreaker { .. } => 5,
        InstrView::Delay { milliseconds } => 1 + min_int((milliseconds / 1000) as int, 60),
        InstrView::EmitEvent { payload, .. } => 1 + (payload.len() as u32) as int,
        InstrView::IfQualityBelow { body, .. } => 3 + spec_weights_sum(body),
        InstrView::Repeat { count, body } => 2 + min_int(count as int, 16) * spec_weights_sum(body),
        InstrView::RouteSwitch { .. } => 8,
        InstrView::AttachTemplate { .. } => 4,
        InstrView::Vendor { payload, .. } => 1 + (payload.len() as u32) as int,
    }
}

/// The total weight of a sequence of instructions.
pub open spec fn spec_weights_sum(s: Seq<InstrView>) -> int
    decreases s,
{
    if s.len() == 0 {
        0
    } else {
        spec_weights_sum(s.subrange(0, s.len() - 1)) + spec_weight(s[s.len() - 1])
    }
}

/// Whether every sum and product met while weighing fits in 32 bits.
pub open spec fn weight_fits(i: InstrView) -> bool
    decreases i,
{
    match i {
        InstrView::EmitEvent { payload, .. } => (payload.len() as u32) < u32::MAX,
        InstrView::Vendor { payload, .. } => (payload.len() as u32) < u32::MAX,
        InstrView::IfQualityBelow { body, .. } => all_fit(body) && 3 + spec_weights_sum(body) <= u32::MAX,
        InstrView::Repeat { count, body } => all_fit(body) && spec_weights_sum(body) <= u32::MAX
            && 2 + min_int(count as int, 16) * spec_weights_sum(body) <= u32::MAX,
        _ => true,
    }
}

/// Whether every instruction of a sequence, and every prefix sum of its
/// weights, fits in 32 bits.
pub open spec fn all_fit(s: Seq<InstrView>) -> bool
    decreases s,
{
    if s.len() == 0 {
        true
    } else {
        all_fit(s.subrange(0, s.len() - 1)) && weight_fits(s[s.len() - 1])
    }
}

/// A weight is never negative.
pub proof fn lemma_weight_nonneg(i: InstrView)
    ensures
        spec_weight(i) >= 0,
    decreases i,
{
    match i {
        InstrView::IfQualityBelow { body, .. } => { lemma_weights_sum_nonneg(body); },
        InstrView::Repeat { count, body } => {
            lemma_weights_sum_nonneg(body);
            assert(min_int(count as int, 16) * spec_weights_sum(body) >= 0) by (nonlinear_arith)
                requires min_int(count as int, 16) >= 0, spec_weights_sum(body) >= 0;
        },
        _ => {},
    }
}

/// A sum of weights is never negative.
pub proof fn lemma_weights_sum_nonneg(s: Seq<InstrView>)
    ensures
        spec_weights_sum(s) >= 0,
    decreases s,
{
    if s.len() > 0 {
        lemma_weights_sum_nonneg(s.subrange(0, s.len() - 1));
        lemma_weight_nonneg(s[s.len() - 1]);
    }
}

fn body_weight(parent: &ScriptInstruction, body: &Vec<ScriptInstruction>) -> (w: u32)
    requires
        (parent matches ScriptInstruction::IfQualityBelow { body: b, .. } && b == body)
            || (parent matches ScriptInstruction::Repeat { body: b, .. } && b == body),
        all_fit(instrs_view(body@)),
        spec_weights_sum(instrs_view(body@)) <= u32::MAX,
    ensures
        w == spec_weights_sum(instrs_view(body@)),
    decreases parent, 0int,
{
    let ghost all = instrs_view(body@);
    let mut total: u32 = 0;
    let mut k: usize = 0;
    while k < body.len()
        invariant
            k <= body@.len(),
            all == instrs_view(body@),
            all_fit(all),
            spec_weights_sum(all) <= u32::MAX,
            total == spec_weights_sum(all.subrange(0, k as int)),
            (parent matches ScriptInstruction::IfQualityBelow { body: b, .. } && b == body)
                || (parent matches ScriptInstruction::Repeat { body: b, .. } && b == body),
        decreases body@.len() - k,
    {
        proof {
            assert(decreases_to!(*body => body@));
            assert(decreases_to!(body@ => body@[k as int]));
            if parent is IfQualityBelow {
                assert(decreases_to!(*parent => parent->IfQualityBelow_body));
            } else {
                assert(decreases_to!(*parent => parent->Repeat_body));
            }
            assert(decreases_to!(*parent => body@[k as int]));
            let pre = all.subrange(0, k + 1);
            assert(pre.subrange(0, pre.len() - 1) =~= all.subrange(0, k as int));
            assert(pre[pre.len() - 1] == all[k as int]);
            lemma_prefix_fits(all, k + 1);
            lemma_prefix_sum_le(all, k + 1);
            lemma_weight_nonneg(all[k as int]);
        }
        let w = instruction_weight(&body[k]);
        total = total + w;
        k = k + 1;
    }
    proof { assert(all.subrange(0, body@.len() as int) =~= all); }
    total
}

/// A prefix of a sequence that fits also fits.
pub proof fn lemma_prefix_fits(s: Seq<InstrView>, n: int)
    requires
        0 <= n <= s.len(),
        all_fit(s),
    ensures
        all_fit(s.subrange(0, n)),
        n > 0 ==> weight_fits(s[n - 1]),
    decreases s.len(),
{
    if n < s.len() {
        lemma_prefix_fits(s.subrange(0, s.len() - 1), n);
        assert(s.subrange(0, s.len() - 1).subrange(0, n) =~= s.subrange(0, n));
        if n > 0 {
            assert(s.subrange(0, s.len() - 1)[n - 1] == s[n - 1]);
        }
    } else {
        assert(s.subrange(0, n) =~= s);
    }
}

/// Weights are never negative, so a prefix weighs no more than the whole.
pub proof fn lemma_prefix_sum_le(s: Seq<InstrView>, n: int)
    requires
        0 <= n <= s.len(),
    ensures
        spec_weights_sum(s.subrange(0, n)) <= spec_weights_sum(s),
    decreases s.len(),
{
    if n < s.len() {
        lemma_prefix_sum_le(s.subrange(0, s.len() - 1), n);
        assert(s.subrange(0, s.len() - 1).subrange(0, n) =~= s.subrange(0, n));
        lemma_weight_nonneg(s[s.len() - 1]);
    } else {
        assert(s.subrange(0, n) =~= s);
    }
}

/// The weight of an instruction, with nested blocks weighed by their
/// bodies.
pub fn instruction_weight(instruction: &ScriptInstruction) -> (w: u32)
    requires
        weight_fits(instruction@),
    ensures
        w == spec_weight(instruction@),
    decreases instruction,
{
    proof { lemma_body_view(*instruction); }
    match instruction {
        ScriptInstruction::SetTariff { .. } => 2,
        ScriptInstruction::OpenBreaker { .. } => 5,
        ScriptInstruction::CloseBreaker { .. } => 5,
        ScriptInstruction::Delay { milliseconds } => {
            let secs = *milliseconds / 1000;
            1 + if secs < 60 { secs } else { 60 }
        },
        ScriptInstruction::EmitEvent { payload, .. } => 1 + payload.len() as u32,
        ScriptInstruction::IfQualityBelow { body, .. } => {
            proof {
                lemma_weights_sum_nonneg(instrs_view(body@));
            }
            3 + body_weight(instruction, body)
        },
        ScriptInstruction::Repeat { count, body } => {
            proof {
                lemma_weights_sum_nonneg(instrs_view(body@));
            }
            let sum = body_weight(instruction, body);
            let times: u32 = if (*count as u32) < 16 { *count as u32 } else { 16 };
            proof {
                let t = times as int;
                let su = sum as int;
                assert(t * su <= u32::MAX) by (nonlinear_arith)
                    requires 2 + t * su <= u32::MAX, 0 <= t, 0 <= su;
            }
            2 + times * sum
        },
        ScriptInstruction::RouteSwitch { .. } => 8,
        ScriptInstruction::AttachTemplate { .. } => 4,
        ScriptInstruction::Vendor { payload, .. } => 1 + payload.len() as u32,
    }
}

/// A sequence fits exactly when each of its instructions does.
pub proof fn lemma_all_fit_iff(s: Seq<InstrView>)
    ensures
        all_fit(s) <==> forall|k: int| 0 <= k < s.len() ==> weight_fits(#[trigger] s[k]),
    decreases s.len(),
{
    if s.len() > 0 {
        let pre = s.subrange(0, s.len() - 1);
        lemma_all_fit_iff(pre);
        if forall|k: int| 0 <= k < s.len() ==> weight_fits(#[trigger] s[k]) {
            assert forall|k: int| 0 <= k < pre.len() implies weight_fits(#[trigger] pre[k]) by {
                assert(pre[k] == s[k]);
            }
            assert(weight_fits(s[s.len() - 1]));
            assert(all_fit(s));
        }
        if all_fit(s) {
            assert forall|k: int| 0 <= k < s.len() implies weight_fits(#[trigger] s[k]) by {
                if k < s.len() - 1 {
                    assert(pre[k] == s[k]);
                }
            }
        }
    }
}

fn checked_body_weight(parent: &ScriptInstruction, body: &Vec<ScriptInstruction>) -> (r: Option<u32>)
    requires
        (parent matches ScriptInstruction::IfQualityBelow { body: b, .. } && b == body)
            || (parent matches ScriptInstruction::Repeat { body: b, .. } && b == body),
    ensures
        (all_fit(instrs_view(body@)) && spec_weights_sum(instrs_view(body@)) <= u32::MAX)
            ==> r == Some(spec_weights_sum(instrs_view(body@)) as u32),
        !(all_fit(instrs_view(body@)) && spec_weights_sum(instrs_view(body@)) <= u32::MAX) ==> r is None,
    decreases parent, 0int,
{
    let ghost all = instrs_view(body@);
    proof {
        lemma_all_fit_iff(all);
        lemma_weights_sum_nonneg(all);
    }
    let mut total: u32 = 0;
    let mut k: usize = 0;
    while k < body.len()
        invariant
            k <= body@.len(),
            all == instrs_view(body@),
            all_fit(all) <==> forall|j: int| 0 <= j < all.len() ==> weight_fits(#[trigger] all[j]),
            forall|j: int| 0 <= j < k ==> weight_fits(#[trigger] all[j]),
            total == spec_weights_sum(all.subrange(0, k as int)),
            (parent matches ScriptInstruction::IfQualityBelow { body: b, .. } && b == body)
                || (parent matches ScriptInstruction::Repeat { body: b, .. } && b == body),
        decreases body@.len() - k,
    {
        proof {
            assert(decreases_to!(*body => body@));
            assert(decreases_to!(body@ => body@[k as int]));
            if parent is IfQualityBelow {
                assert(decreases_to!(*parent => parent->IfQualityBelow_body));
            } else {
                assert(decreases_to!(*parent => parent->Repeat_body));
            }
            assert(decreases_to!(*parent => body@[k as int]));
            let pre = all.subrange(0, k + 1);
            assert(pre.subrange(0, pre.len() - 1) =~= all.subrange(0, k as int));
            assert(pre[pre.len() - 1] == all[k as int]);
            lemma_prefix_sum_le(all, k + 1);
            lemma_weight_nonneg(all[k as int]);
        }
        let w = match checked_instruction_weight(&body[k]) {
            Some(w) => w,
            None => return None,
        };
        total = match total.checked_add(w) {
            Some(t) => t,
            None => return None,
        };
        k = k + 1;
    }
    proof { assert(all.subrange(0, body@.len() as int) =~= all); }
    Some(total)
}

/// The weight of an instruction when every step of weighing it fits in
/// 32 bits; `None` exactly when `instruction_weight` would overflow.
pub fn checked_instruction_weight(instruction: &ScriptInstruction) -> (r: Option<u32>)
    ensures
        weight_fits(instruction@) ==> r == Some(spec_weight(instruction@) as u32),
        !weight_fits(instruction@) ==> r is None,
    decreases instruction,
{
    proof {
        lemma_body_view(*instruction);
        lemma_weight_nonneg(instruction@);
    }
    match instruction {
        ScriptInstruction::EmitEvent { payload, .. } | ScriptInstruction::Vendor { payload, .. } => {
            if payload.len() as u32 == u32::MAX {
                return None;
            }
            Some(instruction_weight(instruction))
        },
        ScriptInstruction::IfQualityBelow { body, .. } => {
            proof { lemma_weights_sum_nonneg(instrs_view(body@)); }
            let sum = checked_body_weight(instruction, body)?;
            assert(instruction@ == (InstrView::IfQualityBelow { threshold: instruction@->IfQualityBelow_threshold, body: instrs_view(body@) }));
            if sum > u32::MAX - 3 {
                assert(!weight_fits(instruction@));
                return None;
            }
            Some(3 + sum)
        },
        ScriptInstruction::Repeat { count, body } => {
            proof { lemma_weights_sum_nonneg(instrs_view(body@)); }
            let sum = checked_body_weight(instruction, body)?;
            let times: u32 = if (*count as u32) < 16 { *count as u32 } else { 16 };
            assert(instruction@ == (InstrView::Repeat { count: *count, body: instrs_view(body@) }));
            let product = match times.checked_mul(sum) {
                Some(p) => p,
                None => {
                    assert(!weight_fits(instruction@));
                    return None;
                },
            };
            if product > u32::MAX - 2 {
                return None;
            }
            Some(2 + product)
        },
        _ => Some(instruction_weight(instruction)),
    }
}


/// An instruction at the given depth whose nested block, if it has one,
/// lies within the nesting limit, holds at most `MAX_BLOCK_INSTRUCTIONS`
/// instructions, and is itself well shaped one level deeper.
pub open spec fn instr_shaped(i: InstrView, depth: nat) -> bool
    decreases i,
{
    match i {
        InstrView::IfQualityBelow { body, .. } => depth + 1 <= MAX_SCRIPT_DEPTH && body.len() <= MAX_BLOCK_INSTRUCTIONS
            && all_shaped(body, depth + 1),
        InstrView::Repeat { body, .. } => depth + 1 <= MAX_SCRIPT_DEPTH && body.len() <= MAX_BLOCK_INSTRUCTIONS
            && all_shaped(body, depth + 1),
        _ => true,
    }
}

/// Every instruction of a block at the given depth is well shaped.
pub open spec fn all_shaped(s: Seq<InstrView>, depth: nat) -> bool
    decreases s,
{
    if s.len() == 0 {
        true
    } else {
        all_shaped(s.subrange(0, s.len() - 1), depth) && instr_shaped(s[s.len() - 1], depth)
    }
}

/// How deep the blocks nested in an instruction go: none for a simple
/// instruction, one more than its body for a block instruction.
pub open spec fn instr_nest(i: InstrView) -> nat
    decreases i,
{
    match i {
        InstrView::IfQualityBelow { body, .. } => 1 + block_nest(body),
        InstrView::Repeat { body, .. } => 1 + block_nest(body),
        _ => 0,
    }
}

/// How deep the blocks nested in a block go: the deepest of its
/// instructions.
pub open spec fn block_nest(s: Seq<InstrView>) -> nat
    decreases s,
{
    if s.len() == 0 {
        0
    } else {
        let a = block_nest(s.subrange(0, s.len() - 1));
        let b = instr_nest(s[s.len() - 1]);
        if a >= b { a } else { b }
    }
}

/// The larger of two integers.
pub open spec fn max_of(a: int, b: int) -> int {
    if a >= b { a } else { b }
}

/// A block that parses is well shaped at its depth, and the deepest level
/// recorded is the larger of the one recorded before and the depth its
/// nested blocks reach.
pub proof fn lemma_block_shaped(d: Seq<u8>, p: int, depth: u8, maxd: u8)
    ensures
        spec_parse_block(d, p, depth, maxd).0 matches Ok(v) ==> depth <= MAX_SCRIPT_DEPTH
            && v.len() <= MAX_BLOCK_INSTRUCTIONS && all_shaped(v, depth as nat)
            && spec_parse_block(d, p, depth, maxd).1 as int == max_of(maxd as int, depth + block_nest(v)),
    decreases d.len(), d.len() - p + 1,
{
    if depth <= MAX_SCRIPT_DEPTH && 0 <= p <= d.len() {
        assert(block_nest(Seq::<InstrView>::empty()) == 0);
        lemma_instrs_shaped(d, p, depth, max_u8(maxd, depth), Seq::empty(), maxd as int);
    }
}

proof fn lemma_instrs_shaped(d: Seq<u8>, p: int, depth: u8, maxd: u8, acc: Seq<InstrView>, m0: int)
    requires
        depth <= MAX_SCRIPT_DEPTH,
        acc.len() <= MAX_BLOCK_INSTRUCTIONS,
        all_shaped(acc, depth as nat),
        maxd as int == max_of(m0, depth + block_nest(acc)),
    ensures
        spec_instrs_from(d, p, depth, maxd, acc).0 matches Ok(v) ==> v.len() <= MAX_BLOCK_INSTRUCTIONS
            && all_shaped(v, depth as nat)
            && spec_instrs_from(d, p, depth, maxd, acc).1 as int == max_of(m0, depth + block_nest(v)),
    decreases d.len(), d.len() - p,
{
    if 0 <= p < d.len() {
        let opcode = d[p];
        if opcode == 0x06 || opcode == 0x07 {
            let (r, p2) = spec_read_u8(d, p + 1);
            if r is Ok {
                let operand = r->Ok_0;
                let (r, p3) = spec_read_u8(d, p2);
                if r is Ok {
                    let len = r->Ok_0;
                    let (r, p4) = spec_take(d, p3, len as int);
                    if r is Ok {
                        let block = r->Ok_0;
                        assert(block.len() < d.len());
                        lemma_block_shaped(block, 0, (depth + 1) as u8, maxd);
                        let (rb, m2) = spec_parse_block(block, 0, (depth + 1) as u8, maxd);
                        if rb is Ok {
                            let body = rb->Ok_0;
                            let ins = if opcode == 0x06 {
                                InstrView::IfQualityBelow { threshold: operand, body }
                            } else {
                                InstrView::Repeat { count: operand, body }
                            };
                            let acc2 = acc.push(ins);
                            assert(acc2.subrange(0, acc2.len() - 1) =~= acc);
                            assert(instr_shaped(ins, depth as nat));
                            assert(instr_nest(ins) == 1 + block_nest(body));
                            assert(block_nest(acc2) == max_of(block_nest(acc) as int, (1 + block_nest(body)) as int));
                            if acc2.len() <= MAX_BLOCK_INSTRUCTIONS {
                                lemma_instrs_shaped(d, p4, depth, m2, acc2, m0);
                            }
                        }
                    }
                }
            }
        } else {
            lemma_simple_instr_bounds(d, p + 1, opcode);
            let (r, q) = spec_simple_instr(d, p + 1, opcode);
            if r is Ok {
                let ins = r->Ok_0;
                let acc2 = acc.push(ins);
                assert(acc2.subrange(0, acc2.len() - 1) =~= acc);
                assert(!(ins is IfQualityBelow) && !(ins is Repeat));
                assert(instr_shaped(ins, depth as nat));
                assert(instr_nest(ins) == 0);
                assert(block_nest(acc2) == block_nest(acc));
                if acc2.len() <= MAX_BLOCK_INSTRUCTIONS {
                    lemma_instrs_shaped(d, q, depth, maxd, acc2, m0);
                }
            }
        }
    }
}

/// A parsed script is well shaped: its top block and every nested block
/// hold at most `MAX_BLOCK_INSTRUCTIONS` instructions, and no block lies
/// deeper than `MAX_SCRIPT_DEPTH`.
pub proof fn law_script_blocks_bounded(d: Seq<u8>)
    ensures
        spec_parse_script(d) matches Ok(prog) ==> prog.instructions.len() <= MAX_BLOCK_INSTRUCTIONS
            && all_shaped(prog.instructions, 0),
{
    if d.len() >= 3 {
        let declared_len = spec_read_u16(d, 1).0->Ok_0;
        let body_len = if (declared_len as int) < d.len() - 3 { declared_len as int } else { d.len() - 3 };
        lemma_block_shaped(d.subrange(3, 3 + body_len), 0, 0, 0);
    }
}


/// The instruction a record of a simple opcode stands for, read from its
/// operand bytes at `p`: 0x01 sets a tariff (class byte, little-endian
/// tariff), 0x02 opens and 0x03 closes a breaker (little-endian feeder,
/// then the reason or the guard byte), 0x08 switches a route (from, to,
/// flags), 0x09 attaches a template (id, revision).
pub proof fn law_simple_records(d: Seq<u8>, p: int)
    requires
        0 <= p,
        p + 5 <= d.len(),
    ensures
        spec_simple_instr(d, p, 0x01) == (Ok::<InstrView, GridError>(InstrView::SetTariff {
            meter_class: d[p], tariff: (d[p + 1] + 256 * d[p + 2]) as u16 }), p + 3),
        spec_simple_instr(d, p, 0x02) == (Ok::<InstrView, GridError>(InstrView::OpenBreaker {
            feeder_id: (d[p] + 256 * d[p + 1]) as u16, reason: d[p + 2] }), p + 3),
        spec_simple_instr(d, p, 0x03) == (Ok::<InstrView, GridError>(InstrView::CloseBreaker {
            feeder_id: (d[p] + 256 * d[p + 1]) as u16, guard: d[p + 2] }), p + 3),
        spec_simple_instr(d, p, 0x08) == (Ok::<InstrView, GridError>(InstrView::RouteSwitch {
            from: (d[p] + 256 * d[p + 1]) as u16, to: (d[p + 2] + 256 * d[p + 3]) as u16, flags: d[p + 4] }), p + 5),
        spec_simple_instr(d, p, 0x09) == (Ok::<InstrView, GridError>(InstrView::AttachTemplate {
            template_id: (d[p] + 256 * d[p + 1]) as u16, revision: d[p + 2] }), p + 3),
{
}

proof fn lemma_single_record_block(body: Seq<u8>, ins: InstrView)
    requires
        body.len() >= 1,
        body[0] != 0x06 && body[0] != 0x07,
        spec_simple_instr(body, 1, body[0]) == (Ok::<InstrView, GridError>(ins), body.len() as int),
    ensures
        spec_parse_block(body, 0, 0, 0) == (Ok::<Seq<InstrView>, GridError>(seq![ins]), 0u8),
{
    let acc2 = Seq::<InstrView>::empty().push(ins);
    assert(acc2 =~= seq![ins]);
    assert(spec_instrs_from(body, body.len() as int, 0, 0, acc2) == (Ok::<Seq<InstrView>, GridError>(acc2), 0u8));
    assert(spec_instrs_from(body, 0, 0, 0, Seq::empty()) == (Ok::<Seq<InstrView>, GridError>(acc2), 0u8));
}

/// A script whose body is one record of a simple opcode parses to that
/// one instruction; in particular opcode 0x02 always gives an open-breaker
/// and 0x03 a close-breaker command, carrying the record's feeder and
/// byte.
pub proof fn law_single_record_script(d: Seq<u8>)
    requires
        d.len() >= 7,
        d[2] == 0,
        d[3] == 0x01 || d[3] == 0x02 || d[3] == 0x03 || d[3] == 0x08 || d[3] == 0x09,
        d[1] == (if d[3] == 0x08 { 6u8 } else { 4u8 }),
        d.len() == 3 + d[1],
    ensures
        ({
            let v = d[0];
            let n = d[1] as usize;
            &&& d[3] == 0x01 ==> spec_parse_script(d) == Ok::<ProgramView, GridError>(ProgramView { version: v,
                instructions: seq![InstrView::SetTariff { meter_class: d[4], tariff: (d[5] + 256 * d[6]) as u16 }],
                max_depth: 0, declared_len: n })
            &&& d[3] == 0x02 ==> spec_parse_script(d) == Ok::<ProgramView, GridError>(ProgramView { version: v,
                instructions: seq![InstrView::OpenBreaker { feeder_id: (d[4] + 256 * d[5]) as u16, reason: d[6] }],
                max_depth: 0, declared_len: n })
            &&& d[3] == 0x03 ==> spec_parse_script(d) == Ok::<ProgramView, GridError>(ProgramView { version: v,
                instructions: seq![InstrView::CloseBreaker { feeder_id: (d[4] + 256 * d[5]) as u16, guard: d[6] }],
                max_depth: 0, declared_len: n })
            &&& d[3] == 0x08 ==> spec_parse_script(d) == Ok::<ProgramView, GridError>(ProgramView { version: v,
                instructions: seq![InstrView::RouteSwitch { from: (d[4] + 256 * d[5]) as u16,
                    to: (d[6] + 256 * d[7]) as u16, flags: d[8] }],
                max_depth: 0, declared_len: n })
            &&& d[3] == 0x09 ==> spec_parse_script(d) == Ok::<ProgramView, GridError>(ProgramView { version: v,
                instructions: seq![InstrView::AttachTemplate { template_id: (d[4] + 256 * d[5]) as u16, revision: d[6] }],
                max_depth: 0, declared_len: n })
        }),
{
    let n = d[1] as int;
    let body = d.subrange(3, 3 + n);
    assert(spec_read_u16(d, 1).0 == Ok::<u16, GridError>(d[1] as u16));
    let padded = body + seq![0u8, 0u8];
    law_simple_records(padded, 1);
    let op = body[0];
    let ins = spec_simple_instr(body, 1, op).0->Ok_0;
    assert(spec_simple_instr(body, 1, op) == (Ok::<InstrView, GridError>(ins), n));
    lemma_single_record_block(body, ins);
}


/// The weights of instructions: a tariff change 2, opening or closing a
/// breaker 5, a route switch 8, a template attach 4, an event or a vendor
/// record one more than its payload bytes; a delay one plus its whole
/// seconds, at most 61 in all; a conditional block three more than its
/// body; a repeat two plus its body taken as many times as it repeats,
/// at most 16.
pub proof fn law_instruction_weights(i: InstrView, ms: u32, payload: Seq<u8>, body: Seq<InstrView>, n: u8, b: u8, w: u16)
    requires
        payload.len() < u32::MAX,
    ensures
        spec_weight(InstrView::SetTariff { meter_class: b, tariff: w }) == 2,
        spec_weight(InstrView::OpenBreaker { feeder_id: w, reason: b }) == 5,
        spec_weight(InstrView::CloseBreaker { feeder_id: w, guard: b }) == 5,
        spec_weight(InstrView::RouteSwitch { from: w, to: w, flags: b }) == 8,
        spec_weight(InstrView::AttachTemplate { template_id: w, revision: b }) == 4,
        spec_weight(InstrView::EmitEvent { code: w, payload }) == 1 + payload.len(),
        spec_weight(InstrView::Vendor { opcode: b, payload }) == 1 + payload.len(),
        ms < 60000 ==> spec_weight(InstrView::Delay { milliseconds: ms }) == 1 + ms / 1000,
        ms >= 60000 ==> spec_weight(InstrView::Delay { milliseconds: ms }) == 61,
        spec_weight(InstrView::IfQualityBelow { threshold: b, body }) == 3 + spec_weights_sum(body),
        n <= 16 ==> spec_weight(InstrView::Repeat { count: n, body }) == 2 + n * spec_weights_sum(body),
        n > 16 ==> spec_weight(InstrView::Repeat { count: n, body }) == 2 + 16 * spec_weights_sum(body),
{
}

/// The weight of two runs of instructions together is the sum of their
/// weights.
pub proof fn law_weights_sum_append(a: Seq<InstrView>, c: Seq<InstrView>)
    ensures
        spec_weights_sum(a + c) == spec_weights_sum(a) + spec_weights_sum(c),
    decreases c.len(),
{
    if c.len() == 0 {
        assert(a + c =~= a);
    } else {
        let c0 = c.subrange(0, c.len() - 1);
        law_weights_sum_append(a, c0);
        let ac = a + c;
        assert(ac.subrange(0, ac.len() - 1) =~= a + c0);
        assert(ac[ac.len() - 1] == c[c.len() - 1]);
    }
}

} // verus!
