use vstd::prelude::*;
use crate::measurements::{ReadingValue, Readout, ReadoutView};
use crate::model::{BatchView, DecodedBatch, ProgramView, ScriptProgram};
use crate::route::{RouteEvent, RouteEventView};
use crate::scripts::{
    InstrView, ScriptInstruction, all_fit, checked_instruction_weight, instr_view, instrs_view, instruction_weight,
    lemma_all_fit_iff, lemma_body_view, lemma_weight_nonneg, spec_weight, weight_fits,
};
use crate::template::FieldKind;

verus! {

#[derive(Debug, Clone, Copy, PartialEq, Eq)]
pub struct BatchScore {
    pub voltage_samples: usize,
    pub outage_indicators: usize,
    pub route_hops: usize,
    pub script_weight: u32,
    pub warning_count: usize,
}

impl Default for BatchScore {
    fn default() -> (s: Self)
        ensures
            s == (BatchScore { voltage_samples: 0, outage_indicators: 0, route_hops: 0, script_weight: 0, warning_count: 0 }),
    {
        BatchScore { voltage_samples: 0, outage_indicators: 0, route_hops: 0, script_weight: 0, warning_count: 0 }
    }
}

/// One for an integer voltage value.
pub open spec fn voltage_of(v: ReadingValue) -> int {
    match v {
        ReadingValue::Integer { kind: FieldKind::Voltage, .. } => 1,
        _ => 0,
    }
}

/// One for a tamper bitmap with either of its two low bits set, or a
/// non-zero outage cause.
pub open spec fn outage_of(v: ReadingValue) -> int {
    match v {
        ReadingValue::Bitmap { kind: FieldKind::TamperFlags, bits } => if bits & 0x03 != 0 { 1 } else { 0 },
        ReadingValue::Integer { kind: FieldKind::OutageCause, value, .. } => if value != 0 { 1 } else { 0 },
        _ => 0,
    }
}

/// Voltage samples among the values of one reading.
pub open spec fn values_voltage(s: Seq<ReadingValue>) -> int
    decreases s.len(),
{
    if s.len() == 0 { 0 } else { values_voltage(s.drop_last()) + voltage_of(s.last()) }
}

/// Outage indicators among the values of one reading.
pub open spec fn values_outage(s: Seq<ReadingValue>) -> int
    decreases s.len(),
{
    if s.len() == 0 { 0 } else { values_outage(s.drop_last()) + outage_of(s.last()) }
}

/// Voltage samples over all readings.
pub open spec fn readings_voltage(s: Seq<ReadoutView>) -> int
    decreases s.len(),
{
    if s.len() == 0 { 0 } else { readings_voltage(s.drop_last()) + values_voltage(s.last().values) }
}

/// Outage indicators over all readings.
pub open spec fn readings_outage(s: Seq<ReadoutView>) -> int
    decreases s.len(),
{
    if s.len() == 0 { 0 } else { readings_outage(s.drop_last()) + values_outage(s.last().values) }
}

/// Hops over all route events.
pub open spec fn hops_total(s: Seq<RouteEventView>) -> int
    decreases s.len(),
{
    if s.len() == 0 { 0 } else { hops_total(s.drop_last()) + s.last().hops.len() }
}

/// The extra weight a block instruction adds: each instruction of its
/// body, weighed and then scored in turn.
pub open spec fn nested_weight(i: InstrView) -> int
    decreases i,
{
    match i {
        InstrView::IfQualityBelow { body, .. } => scored_sum(body),
        InstrView::Repeat { body, .. } => scored_sum(body),
        _ => 0,
    }
}

/// The weight of each instruction plus its nested weight, summed.
pub open spec fn scored_sum(s: Seq<InstrView>) -> int
    decreases s,
{
    if s.len() == 0 {
        0
    } else {
        scored_sum(s.subrange(0, s.len() - 1)) + spec_weight(s[s.len() - 1]) + nested_weight(s[s.len() - 1])
    }
}

/// Script weight over all programs.
pub open spec fn programs_weight(s: Seq<ProgramView>) -> int
    decreases s.len(),
{
    if s.len() == 0 { 0 } else { programs_weight(s.drop_last()) + scored_sum(s.last().instructions) }
}

/// Whether every instruction of every program can be weighed in 32 bits.
pub open spec fn programs_fit(s: Seq<ProgramView>) -> bool {
    forall|k: int| 0 <= k < s.len() ==> all_fit(#[trigger] s[k].instructions)
}

/// Whether the score of a batch can be computed without overflow.
pub open spec fn batch_score_fits(b: BatchView) -> bool {
    &&& readings_voltage(b.readings) <= usize::MAX
    &&& readings_outage(b.readings) <= usize::MAX
    &&& hops_total(b.route_events) <= usize::MAX
    &&& programs_fit(b.script_programs)
    &&& programs_weight(b.script_programs) <= u32::MAX
}

/// The score of a batch.
pub open spec fn spec_score(b: BatchView) -> BatchScore {
    BatchScore {
        voltage_samples: readings_voltage(b.readings) as usize,
        outage_indicators: readings_outage(b.readings) as usize,
        route_hops: hops_total(b.route_events) as usize,
        script_weight: programs_weight(b.script_programs) as u32,
        warning_count: b.diagnostics.warnings.len() as usize,
    }
}

// ---------------------------------------------------------------------
// Facts about the sums
// ---------------------------------------------------------------------

/// The nested weight of an instruction is never negative.
pub proof fn lemma_nested_nonneg(i: InstrView)
    ensures
        nested_weight(i) >= 0,
    decreases i,
{
    match i {
        InstrView::IfQualityBelow { body, .. } => { lemma_scored_nonneg(body); },
        InstrView::Repeat { body, .. } => { lemma_scored_nonneg(body); },
        _ => {},
    }
}

/// A scored sum is never negative.
pub proof fn lemma_scored_nonneg(s: Seq<InstrView>)
    ensures
        scored_sum(s) >= 0,
    decreases s,
{
    if s.len() > 0 {
        lemma_scored_nonneg(s.subrange(0, s.len() - 1));
        lemma_weight_nonneg(s[s.len() - 1]);
        lemma_nested_nonneg(s[s.len() - 1]);
    }
}

proof fn lemma_scored_prefix(s: Seq<InstrView>, n: int)
    requires
        0 <= n <= s.len(),
    ensures
        scored_sum(s.subrange(0, n)) <= scored_sum(s),
        n < s.len() ==> scored_sum(s.subrange(0, n + 1)) == scored_sum(s.subrange(0, n)) + spec_weight(s[n]) + nested_weight(s[n]),
    decreases s.len(),
{
    let t = s.subrange(0, n + 1);
    if n < s.len() {
        assert(t.subrange(0, t.len() - 1) =~= s.subrange(0, n));
        lemma_scored_prefix(s.subrange(0, s.len() - 1), n);
        assert(s.subrange(0, s.len() - 1).subrange(0, n) =~= s.subrange(0, n));
        lemma_weight_nonneg(s[s.len() - 1]);
        lemma_nested_nonneg(s[s.len() - 1]);
    } else {
        assert(s.subrange(0, n) =~= s);
    }
}

proof fn lemma_fit_elements(s: Seq<InstrView>)
    requires
        all_fit(s),
    ensures
        forall|k: int| 0 <= k < s.len() ==> weight_fits(#[trigger] s[k]),
    decreases s.len(),
{
    if s.len() > 0 {
        lemma_fit_elements(s.subrange(0, s.len() - 1));
        assert forall|k: int| 0 <= k < s.len() implies weight_fits(#[trigger] s[k]) by {
            if k < s.len() - 1 {
                assert(s.subrange(0, s.len() - 1)[k] == s[k]);
            }
        }
    }
}

/// A prefix of non-negative terms sums to no more than the whole.
proof fn lemma_sum_prefixes(b: BatchView, k: int)
    ensures
        0 <= k <= b.readings.len() ==> readings_voltage(b.readings.take(k)) <= readings_voltage(b.readings)
            && readings_outage(b.readings.take(k)) <= readings_outage(b.readings),
        0 <= k <= b.route_events.len() ==> hops_total(b.route_events.take(k)) <= hops_total(b.route_events),
        0 <= k <= b.script_programs.len() ==> programs_weight(b.script_programs.take(k)) <= programs_weight(b.script_programs),
{
    if 0 <= k <= b.readings.len() {
        lemma_readings_prefix(b.readings, k);
    }
    if 0 <= k <= b.route_events.len() {
        lemma_hops_prefix(b.route_events, k);
    }
    if 0 <= k <= b.script_programs.len() {
        lemma_programs_prefix(b.script_programs, k);
    }
}

proof fn lemma_values_nonneg(s: Seq<ReadingValue>)
    ensures
        values_voltage(s) >= 0,
        values_outage(s) >= 0,
    decreases s.len(),
{
    if s.len() > 0 {
        lemma_values_nonneg(s.drop_last());
    }
}

proof fn lemma_readings_prefix(s: Seq<ReadoutView>, k: int)
    requires
        0 <= k <= s.len(),
    ensures
        readings_voltage(s.take(k)) <= readings_voltage(s),
        readings_outage(s.take(k)) <= readings_outage(s),
    decreases s.len(),
{
    if k < s.len() {
        lemma_readings_prefix(s.drop_last(), k);
        assert(s.drop_last().take(k) =~= s.take(k));
        lemma_values_nonneg(s.last().values);
    } else {
        assert(s.take(k) =~= s);
    }
}

proof fn lemma_hops_prefix(s: Seq<RouteEventView>, k: int)
    requires
        0 <= k <= s.len(),
    ensures
        hops_total(s.take(k)) <= hops_total(s),
    decreases s.len(),
{
    if k < s.len() {
        lemma_hops_prefix(s.drop_last(), k);
        assert(s.drop_last().take(k) =~= s.take(k));
    } else {
        assert(s.take(k) =~= s);
    }
}

proof fn lemma_programs_prefix(s: Seq<ProgramView>, k: int)
    requires
        0 <= k <= s.len(),
    ensures
        programs_weight(s.take(k)) <= programs_weight(s),
    decreases s.len(),
{
    if k < s.len() {
        lemma_programs_prefix(s.drop_last(), k);
        assert(s.drop_last().take(k) =~= s.take(k));
        lemma_scored_nonneg(s.last().instructions);
    } else {
        assert(s.take(k) =~= s);
    }
}

proof fn lemma_values_prefix(s: Seq<ReadingValue>, k: int)
    requires
        0 <= k <= s.len(),
    ensures
        values_voltage(s.take(k)) <= values_voltage(s),
        values_outage(s.take(k)) <= values_outage(s),
    decreases s.len(),
{
    if k < s.len() {
        lemma_values_prefix(s.drop_last(), k);
        assert(s.drop_last().take(k) =~= s.take(k));
    } else {
        assert(s.take(k) =~= s);
    }
}

// ---------------------------------------------------------------------
// Scoring
// ---------------------------------------------------------------------

/// Scores a decoded batch: voltage samples, outage indicators, route hops,
/// script weight (nested blocks counted again) and warnings.
pub fn score_batch(batch: &DecodedBatch) -> (score: BatchScore)
    requires
        batch_score_fits(batch@),
    ensures
        score == spec_score(batch@),
{
    let ghost b = batch@;
    let mut score = BatchScore::default();
    score.warning_count = batch.diagnostics.warnings.len();
    let mut k: usize = 0;
    while k < batch.readings.len()
        invariant
            b == batch@,
            batch_score_fits(b),
            k <= b.readings.len(),
            score.voltage_samples == readings_voltage(b.readings.take(k as int)),
            score.outage_indicators == readings_outage(b.readings.take(k as int)),
            score.route_hops == 0,
            score.script_weight == 0,
            score.warning_count == b.diagnostics.warnings.len(),
        decreases b.readings.len() - k,
    {
        proof {
            lemma_sum_prefixes(b, k + 1);
            assert(b.readings.take(k + 1).drop_last() =~= b.readings.take(k as int));
            assert(b.readings.take(k + 1).last() == b.readings[k as int]);
            assert(b.readings[k as int] == batch.readings@[k as int]@);
        }
        proof { lemma_values_nonneg(b.readings[k as int].values); }
        score_reading(&batch.readings[k], &mut score);
        k = k + 1;
    }
    proof { assert(b.readings.take(b.readings.len() as int) =~= b.readings); }
    let mut k: usize = 0;
    while k < batch.route_events.len()
        invariant
            b == batch@,
            batch_score_fits(b),
            k <= b.route_events.len(),
            score.voltage_samples == readings_voltage(b.readings),
            score.outage_indicators == readings_outage(b.readings),
            score.route_hops == hops_total(b.route_events.take(k as int)),
            score.script_weight == 0,
            score.warning_count == b.diagnostics.warnings.len(),
        decreases b.route_events.len() - k,
    {
        proof {
            lemma_sum_prefixes(b, k + 1);
            assert(b.route_events.take(k + 1).drop_last() =~= b.route_events.take(k as int));
            assert(b.route_events[k as int] == batch.route_events@[k as int]@);
        }
        score.route_hops = score.route_hops + batch.route_events[k].hops.len();
        k = k + 1;
    }
    proof { assert(b.route_events.take(b.route_events.len() as int) =~= b.route_events); }
    let mut k: usize = 0;
    while k < batch.script_programs.len()
        invariant
            b == batch@,
            batch_score_fits(b),
            k <= b.script_programs.len(),
            score.voltage_samples == readings_voltage(b.readings),
            score.outage_indicators == readings_outage(b.readings),
            score.route_hops == hops_total(b.route_events),
            score.script_weight == programs_weight(b.script_programs.take(k as int)),
            score.warning_count == b.diagnostics.warnings.len(),
        decreases b.script_programs.len() - k,
    {
        proof {
            lemma_sum_prefixes(b, k + 1);
            assert(b.script_programs.take(k + 1).drop_last() =~= b.script_programs.take(k as int));
            assert(b.script_programs.take(k + 1).last() == b.script_programs[k as int]);
            assert(b.script_programs[k as int] == batch.script_programs@[k as int]@);
            assert(all_fit(b.script_programs[k as int].instructions));
            lemma_scored_nonneg(b.script_programs[k as int].instructions);
        }
        score_program(&batch.script_programs[k], &mut score);
        k = k + 1;
    }
    proof { assert(b.script_programs.take(b.script_programs.len() as int) =~= b.script_programs); }
    score
}

fn score_reading(reading: &Readout, score: &mut BatchScore)
    requires
        old(score).voltage_samples + values_voltage(reading@.values) <= usize::MAX,
        old(score).outage_indicators + values_outage(reading@.values) <= usize::MAX,
    ensures
        *final(score) == (BatchScore {
            voltage_samples: (old(score).voltage_samples + values_voltage(reading@.values)) as usize,
            outage_indicators: (old(score).outage_indicators + values_outage(reading@.values)) as usize,
            ..*old(score)
        }),
{
    let ghost s = reading@.values;
    let mut k: usize = 0;
    while k < reading.values.len()
        invariant
            s == reading@.values,
            k <= s.len(),
            old(score).voltage_samples + values_voltage(s) <= usize::MAX,
            old(score).outage_indicators + values_outage(s) <= usize::MAX,
            *score == (BatchScore {
                voltage_samples: (old(score).voltage_samples + values_voltage(s.take(k as int))) as usize,
                outage_indicators: (old(score).outage_indicators + values_outage(s.take(k as int))) as usize,
                ..*old(score)
            }),
            old(score).voltage_samples + values_voltage(s.take(k as int)) <= usize::MAX,
            old(score).outage_indicators + values_outage(s.take(k as int)) <= usize::MAX,
        decreases s.len() - k,
    {
        proof {
            lemma_values_prefix(s, k + 1);
            lemma_values_nonneg(s.take(k as int));
            assert(s.take(k + 1).drop_last() =~= s.take(k as int));
        }
        match &reading.values[k] {
            ReadingValue::Integer { kind: FieldKind::Voltage, .. } => {
                score.voltage_samples = score.voltage_samples + 1;
            },
            ReadingValue::Bitmap { kind: FieldKind::TamperFlags, bits } => {
                if *bits & 0x03 != 0 {
                    score.outage_indicators = score.outage_indicators + 1;
                }
            },
            ReadingValue::Integer { kind: FieldKind::OutageCause, value, .. } => {
                if *value != 0 {
                    score.outage_indicators = score.outage_indicators + 1;
                }
            },
            _ => {},
        }
        k = k + 1;
    }
    proof { assert(s.take(s.len() as int) =~= s); }
}

fn score_program(program: &ScriptProgram, score: &mut BatchScore)
    requires
        all_fit(program@.instructions),
        old(score).script_weight + scored_sum(program@.instructions) <= u32::MAX,
    ensures
        *final(score) == (BatchScore {
            script_weight: (old(score).script_weight + scored_sum(program@.instructions)) as u32,
            ..*old(score)
        }),
{
    let ghost s = program@.instructions;
    proof { lemma_fit_elements(s); }
    let mut k: usize = 0;
    while k < program.instructions.len()
        invariant
            s == program@.instructions,
            s == instrs_view(program.instructions@),
            k <= s.len(),
            forall|j: int| 0 <= j < s.len() ==> weight_fits(#[trigger] s[j]),
            old(score).script_weight + scored_sum(s) <= u32::MAX,
            *score == (BatchScore {
                script_weight: (old(score).script_weight + scored_sum(s.subrange(0, k as int))) as u32,
                ..*old(score)
            }),
            old(score).script_weight + scored_sum(s.subrange(0, k as int)) <= u32::MAX,
        decreases s.len() - k,
    {
        proof {
            lemma_scored_prefix(s, k as int);
            lemma_scored_prefix(s, k + 1);
            lemma_scored_nonneg(s.subrange(0, k as int));
            lemma_weight_nonneg(s[k as int]);
            lemma_nested_nonneg(s[k as int]);
            assert(s[k as int] == program.instructions@[k as int]@);
        }
        let instruction = &program.instructions[k];
        let w = instruction_weight(instruction);
        score.script_weight = score.script_weight + w;
        score_nested(instruction, score);
        k = k + 1;
    }
    proof { assert(s.subrange(0, s.len() as int) =~= s); }
}

fn score_nested(instruction: &ScriptInstruction, score: &mut BatchScore)
    requires
        weight_fits(instruction@),
        old(score).script_weight + nested_weight(instruction@) <= u32::MAX,
    ensures
        *final(score) == (BatchScore {
            script_weight: (old(score).script_weight + nested_weight(instruction@)) as u32,
            ..*old(score)
        }),
    decreases instruction, 1int,
{
    proof { lemma_body_view(*instruction); }
    match instruction {
        ScriptInstruction::IfQualityBelow { body, .. } => {
            score_body(instruction, body, score);
        },
        ScriptInstruction::Repeat { body, .. } => {
            score_body(instruction, body, score);
        },
        _ => {},
    }
}

fn score_body(parent: &ScriptInstruction, body: &Vec<ScriptInstruction>, score: &mut BatchScore)
    requires
        (parent matches ScriptInstruction::IfQualityBelow { body: b, .. } && b == body)
            || (parent matches ScriptInstruction::Repeat { body: b, .. } && b == body),
        all_fit(instrs_view(body@)),
        old(score).script_weight + scored_sum(instrs_view(body@)) <= u32::MAX,
    ensures
        *final(score) == (BatchScore {
            script_weight: (old(score).script_weight + scored_sum(instrs_view(body@))) as u32,
            ..*old(score)
        }),
    decreases parent, 0int,
{
    let ghost s = instrs_view(body@);
    proof { lemma_fit_elements(s); }
    let mut k: usize = 0;
    while k < body.len()
        invariant
            s == instrs_view(body@),
            k <= s.len(),
            forall|j: int| 0 <= j < s.len() ==> weight_fits(#[trigger] s[j]),
            old(score).script_weight + scored_sum(s) <= u32::MAX,
            *score == (BatchScore {
                script_weight: (old(score).script_weight + scored_sum(s.subrange(0, k as int))) as u32,
                ..*old(score)
            }),
            old(score).script_weight + scored_sum(s.subrange(0, k as int)) <= u32::MAX,
            (parent matches ScriptInstruction::IfQualityBelow { body: b, .. } && b == body)
                || (parent matches ScriptInstruction::Repeat { body: b, .. } && b == body),
        decreases s.len() - k,
    {
        proof {
            assert(decreases_to!(*body => body@));
            assert(decreases_to!(body@ => body@[k as int]));
            if parent is IfQualityBelow {
                assert(decreases_to!(*parent => parent->IfQualityBelow_body));
            } else {
                assert(decreases_to!(*parent => parent->Repeat_body));
            }
            assert(decreases_to!(*parent => body@[k as int]));
            lemma_scored_prefix(s, k as int);
            lemma_scored_prefix(s, k + 1);
            lemma_scored_nonneg(s.subrange(0, k as int));
            lemma_weight_nonneg(s[k as int]);
            lemma_nested_nonneg(s[k as int]);
        }
        let nested = &body[k];
        let w = instruction_weight(nested);
        score.script_weight = score.script_weight + w;
        score_nested(nested, score);
        k = k + 1;
    }
    proof { assert(s.subrange(0, s.len() as int) =~= s); }
}

// ---------------------------------------------------------------------
// Scoring when it fits
// ---------------------------------------------------------------------

/// The score of a batch when it can be computed without overflow, and
/// `None` exactly when `score_batch` would overflow.
pub fn try_score_batch(batch: &DecodedBatch) -> (r: Option<BatchScore>)
    ensures
        batch_score_fits(batch@) ==> r == Some(spec_score(batch@)),
        !batch_score_fits(batch@) ==> r is None,
{
    let ghost b = batch@;
    let mut voltage: usize = 0;
    let mut outage: usize = 0;
    let mut k: usize = 0;
    while k < batch.readings.len()
        invariant
            b == batch@,
            k <= b.readings.len(),
            voltage == readings_voltage(b.readings.take(k as int)),
            outage == readings_outage(b.readings.take(k as int)),
        decreases b.readings.len() - k,
    {
        proof {
            lemma_sum_prefixes(b, k + 1);
            assert(b.readings.take(k + 1).drop_last() =~= b.readings.take(k as int));
            assert(b.readings.take(k + 1).last() == b.readings[k as int]);
            assert(b.readings[k as int] == batch.readings@[k as int]@);
            lemma_values_nonneg(b.readings[k as int].values);
        }
        let reading = &batch.readings[k];
        let ghost vs = reading@.values;
        let mut j: usize = 0;
        while j < reading.values.len()
            invariant
                vs == reading@.values,
                j <= vs.len(),
                b == batch@,
                k < b.readings.len(),
                b.readings.take(k + 1).drop_last() == b.readings.take(k as int),
                b.readings.take(k + 1).last() == b.readings[k as int],
                b.readings[k as int].values == vs,
                voltage == readings_voltage(b.readings.take(k as int)) + values_voltage(vs.take(j as int)),
                outage == readings_outage(b.readings.take(k as int)) + values_outage(vs.take(j as int)),
            decreases vs.len() - j,
        {
            proof {
                lemma_values_prefix(vs, j + 1);
                lemma_values_nonneg(vs.take(j as int));
                assert(vs.take(j + 1).drop_last() =~= vs.take(j as int));
                lemma_sum_prefixes(b, k + 1);
                lemma_readings_prefix(b.readings, k + 1);
            }
            match &reading.values[j] {
                ReadingValue::Integer { kind: FieldKind::Voltage, .. } => {
                    voltage = match voltage.checked_add(1) {
                        Some(v) => v,
                        None => return None,
                    };
                },
                ReadingValue::Bitmap { kind: FieldKind::TamperFlags, bits } => {
                    if *bits & 0x03 != 0 {
                        outage = match outage.checked_add(1) {
                            Some(v) => v,
                            None => return None,
                        };
                    }
                },
                ReadingValue::Integer { kind: FieldKind::OutageCause, value, .. } => {
                    if *value != 0 {
                        outage = match outage.checked_add(1) {
                            Some(v) => v,
                            None => return None,
                        };
                    }
                },
                _ => {},
            }
            j = j + 1;
        }
        proof { assert(vs.take(vs.len() as int) =~= vs); }
        k = k + 1;
    }
    proof { assert(b.readings.take(b.readings.len() as int) =~= b.readings); }
    let mut hops: usize = 0;
    let mut k: usize = 0;
    while k < batch.route_events.len()
        invariant
            b == batch@,
            k <= b.route_events.len(),
            voltage == readings_voltage(b.readings),
            outage == readings_outage(b.readings),
            hops == hops_total(b.route_events.take(k as int)),
        decreases b.route_events.len() - k,
    {
        proof {
            lemma_sum_prefixes(b, k + 1);
            assert(b.route_events.take(k + 1).drop_last() =~= b.route_events.take(k as int));
            assert(b.route_events[k as int] == batch.route_events@[k as int]@);
        }
        hops = match hops.checked_add(batch.route_events[k].hops.len()) {
            Some(h) => h,
            None => return None,
        };
        k = k + 1;
    }
    proof { assert(b.route_events.take(b.route_events.len() as int) =~= b.route_events); }
    let mut weight: u32 = 0;
    let mut k: usize = 0;
    while k < batch.script_programs.len()
        invariant
            b == batch@,
            k <= b.script_programs.len(),
            voltage == readings_voltage(b.readings),
            outage == readings_outage(b.readings),
            hops == hops_total(b.route_events),
            weight == programs_weight(b.script_programs.take(k as int)),
            forall|j: int| 0 <= j < k ==> all_fit(#[trigger] b.script_programs[j].instructions),
        decreases b.script_programs.len() - k,
    {
        proof {
            lemma_sum_prefixes(b, k + 1);
            assert(b.script_programs.take(k + 1).drop_last() =~= b.script_programs.take(k as int));
            assert(b.script_programs.take(k + 1).last() == b.script_programs[k as int]);
            assert(b.script_programs[k as int] == batch.script_programs@[k as int]@);
            lemma_scored_nonneg(b.script_programs[k as int].instructions);
        }
        let program = &batch.script_programs[k];
        if !program_fits(program) {
            return None;
        }
        weight = match checked_add_program(program, weight) {
            Some(w) => w,
            None => return None,
        };
        k = k + 1;
    }
    proof { assert(b.script_programs.take(b.script_programs.len() as int) =~= b.script_programs); }
    Some(BatchScore {
        voltage_samples: voltage,
        outage_indicators: outage,
        route_hops: hops,
        script_weight: weight,
        warning_count: batch.diagnostics.warnings.len(),
    })
}

fn program_fits(program: &ScriptProgram) -> (b: bool)
    ensures
        b == all_fit(program@.instructions),
{
    let ghost s = program@.instructions;
    proof { lemma_all_fit_iff(s); }
    let mut k: usize = 0;
    while k < program.instructions.len()
        invariant
            s == program@.instructions,
            s == instrs_view(program.instructions@),
            k <= s.len(),
            all_fit(s) <==> forall|j: int| 0 <= j < s.len() ==> weight_fits(#[trigger] s[j]),
            forall|j: int| 0 <= j < k ==> weight_fits(#[trigger] s[j]),
        decreases s.len() - k,
    {
        proof { assert(s[k as int] == program.instructions@[k as int]@); }
        if checked_instruction_weight(&program.instructions[k]).is_none() {
            return false;
        }
        k = k + 1;
    }
    true
}

fn checked_add_program(program: &ScriptProgram, acc: u32) -> (r: Option<u32>)
    requires
        all_fit(program@.instructions),
    ensures
        acc + scored_sum(program@.instructions) <= u32::MAX ==> r == Some((acc + scored_sum(program@.instructions)) as u32),
        acc + scored_sum(program@.instructions) > u32::MAX ==> r is None,
{
    let ghost s = program@.instructions;
    proof {
        lemma_fit_elements(s);
        lemma_scored_nonneg(s);
    }
    let mut total: u32 = acc;
    let mut k: usize = 0;
    while k < program.instructions.len()
        invariant
            s == program@.instructions,
            s == instrs_view(program.instructions@),
            k <= s.len(),
            forall|j: int| 0 <= j < s.len() ==> weight_fits(#[trigger] s[j]),
            total == acc + scored_sum(s.subrange(0, k as int)),
            scored_sum(s) >= 0,
        decreases s.len() - k,
    {
        proof {
            lemma_scored_prefix(s, k as int);
            lemma_scored_prefix(s, k + 1);
            lemma_scored_nonneg(s.subrange(0, k as int));
            lemma_weight_nonneg(s[k as int]);
            lemma_nested_nonneg(s[k as int]);
            assert(s[k as int] == program.instructions@[k as int]@);
        }
        let instruction = &program.instructions[k];
        let w = instruction_weight(instruction);
        total = match total.checked_add(w) {
            Some(t) => t,
            None => return None,
        };
        total = match checked_add_nested(instruction, total) {
            Some(t) => t,
            None => return None,
        };
        k = k + 1;
    }
    proof { assert(s.subrange(0, s.len() as int) =~= s); }
    Some(total)
}

fn checked_add_nested(instruction: &ScriptInstruction, acc: u32) -> (r: Option<u32>)
    requires
        weight_fits(instruction@),
    ensures
        acc + nested_weight(instruction@) <= u32::MAX ==> r == Some((acc + nested_weight(instruction@)) as u32),
        acc + nested_weight(instruction@) > u32::MAX ==> r is None,
    decreases instruction, 1int,
{
    proof {
        lemma_body_view(*instruction);
        lemma_nested_nonneg(instruction@);
    }
    match instruction {
        ScriptInstruction::IfQualityBelow { body, .. } => checked_add_body(instruction, body, acc),
        ScriptInstruction::Repeat { body, .. } => checked_add_body(instruction, body, acc),
        _ => Some(acc),
    }
}

fn checked_add_body(parent: &ScriptInstruction, body: &Vec<ScriptInstruction>, acc: u32) -> (r: Option<u32>)
    requires
        (parent matches ScriptInstruction::IfQualityBelow { body: b, .. } && b == body)
            || (parent matches ScriptInstruction::Repeat { body: b, .. } && b == body),
        all_fit(instrs_view(body@)),
    ensures
        acc + scored_sum(instrs_view(body@)) <= u32::MAX ==> r == Some((acc + scored_sum(instrs_view(body@))) as u32),
        acc + scored_sum(instrs_view(body@)) > u32::MAX ==> r is None,
    decreases parent, 0int,
{
    let ghost s = instrs_view(body@);
    proof {
        lemma_fit_elements(s);
        lemma_scored_nonneg(s);
    }
    let mut total: u32 = acc;
    let mut k: usize = 0;
    while k < body.len()
        invariant
            s == instrs_view(body@),
            k <= s.len(),
            forall|j: int| 0 <= j < s.len() ==> weight_fits(#[trigger] s[j]),
            total == acc + scored_sum(s.subrange(0, k as int)),
            scored_sum(s) >= 0,
            (parent matches ScriptInstruction::IfQualityBelow { body: b, .. } && b == body)
                || (parent matches ScriptInstruction::Repeat { body: b, .. } && b == body),
        decreases s.len() - k,
    {
        proof {
            assert(decreases_to!(*body => body@));
            assert(decreases_to!(body@ => body@[k as int]));
            if parent is IfQualityBelow {
                assert(decreases_to!(*parent => parent->IfQualityBelow_body));
            } else {
                assert(decreases_to!(*parent => parent->Repeat_body));
            }
            assert(decreases_to!(*parent => body@[k as int]));
            lemma_scored_prefix(s, k as int);
            lemma_scored_prefix(s, k + 1);
            lemma_scored_nonneg(s.subrange(0, k as int));
            lemma_weight_nonneg(s[k as int]);
            lemma_nested_nonneg(s[k as int]);
        }
        let nested = &body[k];
        let w = instruction_weight(nested);
        total = match total.checked_add(w) {
            Some(t) => t,
            None => return None,
        };
        total = match checked_add_nested(nested, total) {
            Some(t) => t,
            None => return None,
        };
        k = k + 1;
    }
    proof { assert(s.subrange(0, s.len() as int) =~= s); }
    Some(total)
}


/// The voltage samples of a reading are its integer values of kind
/// voltage, and nothing else: a null or bitmap value never counts.
pub proof fn law_voltage_samples(s: Seq<ReadingValue>)
    ensures
        values_voltage(s) == s.filter(|v: ReadingValue| v matches ReadingValue::Integer { kind: FieldKind::Voltage, .. }).len(),
    decreases s.len(),
{
    reveal_with_fuel(Seq::filter, 1);
    if s.len() > 0 {
        law_voltage_samples(s.drop_last());
    }
}

/// The outage indicators of a reading are its tamper bitmaps with either
/// of the two low bits set and its non-zero outage causes, and nothing
/// else.
pub proof fn law_outage_indicators(s: Seq<ReadingValue>)
    ensures
        values_outage(s) == s.filter(|v: ReadingValue|
            (v matches ReadingValue::Bitmap { kind: FieldKind::TamperFlags, bits } && bits & 0x03 != 0)
            || (v matches ReadingValue::Integer { kind: FieldKind::OutageCause, value, .. } && value != 0)).len(),
    decreases s.len(),
{
    reveal_with_fuel(Seq::filter, 1);
    if s.len() > 0 {
        law_outage_indicators(s.drop_last());
    }
}

/// A null value adds to no count of a batch's score.
pub proof fn law_null_counts_nothing(s: Seq<ReadingValue>, kind: FieldKind)
    ensures
        values_voltage(s.push(ReadingValue::Null { kind })) == values_voltage(s),
        values_outage(s.push(ReadingValue::Null { kind })) == values_outage(s),
{
    assert(s.push(ReadingValue::Null { kind }).drop_last() =~= s);
}

} // verus!
