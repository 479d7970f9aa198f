use vstd::prelude::*;
use crate::cursor::{ByteCursor, spec_read_u8, spec_read_u16, spec_read_u32, spec_read_svar_i32, spec_remaining, spec_take};
use crate::error::GridError;
use crate::model::{Diagnostics, DiagnosticsView};
use crate::template::{
    BankView, FieldCodec, FieldKind, FieldSpec, Template, TemplateBank, lemma_template_index, spec_cached, spec_lookup,
    bank_widths_ok, template_index, template_widths_ok, width_ok,
};

verus! {

#[derive(Debug, Clone)]
pub struct Readout {
    pub meter_id: u32,
    pub template_id: u16,
    pub template_revision: u8,
    pub timestamp_delta: i32,
    pub values: Vec<ReadingValue>,
    pub quality: u8,
}

#[derive(Debug, Clone, PartialEq, Eq)]
pub enum ReadingValue {
    Integer { kind: FieldKind, value: i64, scale: i8 },
    Bitmap { kind: FieldKind, bits: u64 },
    Null { kind: FieldKind },
}

pub struct ReadoutView {
    pub meter_id: u32,
    pub template_id: u16,
    pub template_revision: u8,
    pub timestamp_delta: i32,
    pub values: Seq<ReadingValue>,
    pub quality: u8,
}

impl View for Readout {
    type V = ReadoutView;

    open spec fn view(&self) -> ReadoutView {
        ReadoutView {
            meter_id: self.meter_id,
            template_id: self.template_id,
            template_revision: self.template_revision,
            timestamp_delta: self.timestamp_delta,
            values: self.values@,
            quality: self.quality,
        }
    }
}

// ---------------------------------------------------------------------
// Value encodings
// ---------------------------------------------------------------------

/// The little-endian value of a byte sequence.
pub open spec fn spec_le(s: Seq<u8>) -> nat
    decreases s.len(),
{
    if s.len() == 0 { 0 } else { (s[0] as nat) + 256 * spec_le(s.drop_first()) }
}

/// 256 to the power `w`.
pub open spec fn pow256(w: nat) -> nat
    decreases w,
{
    if w == 0 { 1 } else { 256 * pow256((w - 1) as nat) }
}

/// A little-endian value is below 256 to the power of its length.
pub proof fn lemma_le_bound(s: Seq<u8>)
    ensures
        spec_le(s) < pow256(s.len()),
    decreases s.len(),
{
    if s.len() > 0 {
        lemma_le_bound(s.drop_first());
    }
}

/// Powers of 256 grow with the exponent.
pub proof fn lemma_pow256_mono(a: nat, b: nat)
    requires
        a <= b,
    ensures
        pow256(a) <= pow256(b),
    decreases b,
{
    if a < b {
        lemma_pow256_mono(a, (b - 1) as nat);
    }
}

/// An unsigned field of `width` bytes, little-endian; widths outside one
/// to eight are refused.
pub open spec fn spec_read_unsigned(d: Seq<u8>, p: int, width: usize) -> (Result<u64, GridError>, int) {
    if width == 0 || width > 8 {
        (Err(GridError::MeasurementMalformed("unsupported field width")), p)
    } else {
        let (r, q) = spec_take(d, p, width as int);
        match r {
            Ok(s) => (Ok(spec_le(s) as u64), q),
            Err(e) => (Err(e), q),
        }
    }
}

/// Two's-complement reading of the low `8 * width` bits of `raw`.
pub open spec fn sign_extend(raw: u64, width: usize) -> i64 {
    if width >= 8 {
        raw as i64
    } else if raw as int >= pow256(width as nat) / 2 {
        (raw - pow256(width as nat)) as i64
    } else {
        raw as i64
    }
}

/// Zig-zag decoding of a 64-bit value.
pub open spec fn zigzag64(raw: u64) -> i64 {
    if raw % 2 == 0 {
        (raw / 2) as i64
    } else {
        (-((raw / 2) as int) - 1) as i64
    }
}

/// The decimal value of packed BCD digits, low nibble first; `None` when
/// some nibble is not a decimal digit.
pub open spec fn spec_bcd(raw: nat) -> Option<nat>
    decreases raw,
{
    if raw == 0 {
        Some(0)
    } else if raw % 16 > 9 {
        None
    } else {
        match spec_bcd(raw / 16) {
            Some(v) => Some((raw % 16) + 10 * v),
            None => None,
        }
    }
}

/// Packed BCD values are read as decimal; a value that is not valid BCD,
/// and any value of another codec, is kept as it is.
pub open spec fn spec_normalize(value: i64, codec: FieldCodec) -> i64 {
    if codec == FieldCodec::PackedBcd {
        match spec_bcd(value as u64 as nat) {
            Some(v) => v as i64,
            None => value,
        }
    } else {
        value
    }
}

/// One field's value by its codec.
pub open spec fn spec_decode_value(f: FieldSpec, d: Seq<u8>, p: int) -> (Result<ReadingValue, GridError>, int) {
    let (r, q) = spec_read_unsigned(d, p, f.width);
    match r {
        Err(e) => (Err(e), q),
        Ok(raw) => (Ok(match f.codec {
            FieldCodec::Bitmap => ReadingValue::Bitmap { kind: f.kind, bits: raw },
            FieldCodec::Signed => ReadingValue::Integer { kind: f.kind, value: sign_extend(raw, f.width), scale: f.scale },
            FieldCodec::ZigZag => ReadingValue::Integer { kind: f.kind, value: zigzag64(raw), scale: f.scale },
            _ => ReadingValue::Integer { kind: f.kind, value: spec_normalize(raw as i64, f.codec), scale: f.scale },
        }), q),
    }
}

/// The values of fields `k..` from position `p`, after `acc`: a nullable
/// field whose next byte is 0xff is null and takes that byte.
pub open spec fn spec_values_from(fields: Seq<FieldSpec>, k: int, d: Seq<u8>, p: int, acc: Seq<ReadingValue>) -> Result<Seq<ReadingValue>, GridError>
    decreases fields.len() - k,
{
    if k < 0 || k >= fields.len() {
        Ok(acc)
    } else {
        let f = fields[k];
        if f.nullable && spec_remaining(d, p) > 0 && 0 <= p && d[p] == 0xff {
            spec_values_from(fields, k + 1, d, p + 1, acc.push(ReadingValue::Null { kind: f.kind }))
        } else {
            let (r, q) = spec_decode_value(f, d, p);
            match r {
                Err(e) => Err(e),
                Ok(v) => spec_values_from(fields, k + 1, d, q, acc.push(v)),
            }
        }
    }
}

/// A reading payload: meter id, template id and revision, flags, quality,
/// a zig-zag timestamp delta (zero when it cannot be read), then one value
/// per template field. Flag bit 0 takes the template from the cache of the
/// last lookup; otherwise the template is looked up, which records its key.
pub open spec fn spec_decode_reading(d: Seq<u8>, bank: BankView, diag: DiagnosticsView) -> (Result<ReadoutView, GridError>, BankView, DiagnosticsView) {
    let (r, p) = spec_read_u32(d, 0);
    match r {
        Err(e) => (Err(e), bank, diag),
        Ok(meter_id) => {
            let (r, p) = spec_read_u16(d, p);
            match r {
                Err(e) => (Err(e), bank, diag),
                Ok(template_id) => {
                    let (r, p) = spec_read_u8(d, p);
                    match r {
                        Err(e) => (Err(e), bank, diag),
                        Ok(template_revision) => {
                            let (r, p) = spec_read_u8(d, p);
                            match r {
                                Err(e) => (Err(e), bank, diag),
                                Ok(flags) => {
                                    let (r, p) = spec_read_u8(d, p);
                                    match r {
                                        Err(e) => (Err(e), bank, diag),
                                        Ok(quality) => {
                                            let (rt, p) = spec_read_svar_i32(d, p);
                                            let timestamp_delta = match rt {
                                                Ok(v) => v,
                                                Err(_) => 0i32,
                                            };
                                            let (found, bank2) = if flags & 0x01 != 0 {
                                                (spec_cached(bank, template_id, template_revision), bank)
                                            } else {
                                                spec_lookup(bank, template_id, template_revision)
                                            };
                                            match found {
                                                None => (Err(GridError::TemplateMissing { id: template_id, revision: template_revision }), bank2, diag),
                                                Some(t) => match spec_values_from(t.fields, 0, d, p, Seq::empty()) {
                                                    Err(e) => (Err(e), bank2, diag),
                                                    Ok(values) => (
                                                        Ok(ReadoutView { meter_id, template_id, template_revision, timestamp_delta, values, quality }),
                                                        bank2,
                                                        DiagnosticsView { readings_decoded: diag.readings_decoded + 1, ..diag },
                                                    ),
                                                },
                                            }
                                        },
                                    }
                                },
                            }
                        },
                    }
                },
            }
        },
    }
}

// ---------------------------------------------------------------------
// Decoding
// ---------------------------------------------------------------------

/// Decodes a reading payload against the template bank.
pub fn decode_reading(payload: &[u8], bank: &mut TemplateBank, diagnostics: &mut Diagnostics) -> (r: Result<Readout, GridError>)
    requires
        old(diagnostics).readings_decoded < usize::MAX,
    ensures
        (match r {
            Ok(v) => Ok::<ReadoutView, GridError>(v@),
            Err(e) => Err(e),
        }, final(bank)@, final(diagnostics)@) == spec_decode_reading(payload@, old(bank)@, old(diagnostics)@),
{
    let mut cursor = ByteCursor::new(payload);
    let meter_id = cursor.read_u32_le()?;
    let template_id = cursor.read_u16_le()?;
    let template_revision = cursor.read_u8()?;
    let flags = cursor.read_u8()?;
    let quality = cursor.read_u8()?;
    let timestamp_delta = match cursor.read_svar_i32() {
        Ok(v) => v,
        Err(_) => 0,
    };
    let template = if flags & 0x01 != 0 {
        bank.reuse_cached_template(template_id, template_revision)
    } else {
        bank.lookup(template_id, template_revision)
    };
    let template = match template {
        Some(t) => t,
        None => return Err(GridError::TemplateMissing { id: template_id, revision: template_revision }),
    };
    let values = decode_values(template, &mut cursor)?;
    diagnostics.readings_decoded = diagnostics.readings_decoded + 1;
    Ok(Readout { meter_id, template_id, template_revision, timestamp_delta, values, quality })
}

fn decode_values(template: &Template, cursor: &mut ByteCursor<'_>) -> (r: Result<Vec<ReadingValue>, GridError>)
    ensures
        (match r {
            Ok(v) => Ok::<Seq<ReadingValue>, GridError>(v@),
            Err(e) => Err(e),
        }) == spec_values_from(template@.fields, 0, old(cursor).data(), old(cursor).pos(), Seq::empty()),
{
    let ghost d = old(cursor).data();
    let ghost fields = template@.fields;
    // The position's contract bounds it by the data, for the loop below.
    let _start = cursor.position();
    let mut values: Vec<ReadingValue> = Vec::new();
    let mut k: usize = 0;
    while k < template.fields.len()
        invariant
            k <= fields.len(),
            fields == template.fields@,
            fields == template@.fields,
            d == old(cursor).data(),
            cursor.data() == d,
            0 <= cursor.pos() <= d.len(),
            spec_values_from(fields, 0, d, old(cursor).pos(), Seq::empty())
                == spec_values_from(fields, k as int, d, cursor.pos(), values@),
        decreases fields.len() - k,
    {
        let field = template.fields[k];
        if field.nullable && cursor.remaining() > 0 {
            let marker = cursor.peek_u8()?;
            if marker == 0xff {
                let _ = cursor.read_u8()?;
                values.push(ReadingValue::Null { kind: field.kind });
                k = k + 1;
                continue;
            }
        }
        assert(field == fields[k as int]);
        assert(!(field.nullable && spec_remaining(d, cursor.pos()) > 0 && d[cursor.pos()] == 0xff));
        let ghost before = values@;
        let ghost p = cursor.pos();
        let value = match decode_value(&field, cursor) {
            Ok(v) => v,
            Err(e) => {
                assert(spec_decode_value(field, d, p).0 == Err::<ReadingValue, GridError>(e));
                assert(spec_values_from(fields, k as int, d, p, before) == Err::<Seq<ReadingValue>, GridError>(e));
                return Err(e);
            },
        };
        values.push(value);
        k = k + 1;
    }
    Ok(values)
}

fn decode_value(field: &FieldSpec, cursor: &mut ByteCursor<'_>) -> (r: Result<ReadingValue, GridError>)
    ensures
        final(cursor).data() == old(cursor).data(),
        (r, final(cursor).pos()) == spec_decode_value(*field, old(cursor).data(), old(cursor).pos()),
{
    let raw = read_unsigned(cursor, field.width)?;
    match field.codec {
        FieldCodec::Bitmap => Ok(ReadingValue::Bitmap { kind: field.kind, bits: raw }),
        FieldCodec::Unsigned | FieldCodec::FixedPoint | FieldCodec::PackedBcd => {
            let value = raw as i64;
            Ok(ReadingValue::Integer { kind: field.kind, value: normalize_packed_bcd(value, field.codec), scale: field.scale })
        },
        FieldCodec::Signed => Ok(ReadingValue::Integer { kind: field.kind, value: sign_extend_exec(raw, field.width), scale: field.scale }),
        FieldCodec::ZigZag => {
            assert(raw >> 1 == raw / 2 && (raw & 1 == 0) == (raw % 2 == 0)) by (bit_vector);
            let half = (raw >> 1) as i64;
            let value = if raw & 1 == 0 { half } else { -half - 1 };
            Ok(ReadingValue::Integer { kind: field.kind, value, scale: field.scale })
        },
    }
}

fn sign_extend_exec(raw: u64, width: usize) -> (v: i64)
    requires
        1 <= width <= 8,
        raw < pow256(width as nat),
    ensures
        v == sign_extend(raw, width),
{
    if width >= 8 {
        return raw as i64;
    }
    let mut span: u64 = 1;
    let mut i: usize = 0;
    proof { lemma_pow256_mono(width as nat, 7); }
    proof { lemma_pow_values(); }
    while i < width
        invariant
            i <= width < 8,
            span == pow256(i as nat),
            pow256(width as nat) <= 0x100_0000_0000_0000,
        decreases width - i,
    {
        proof { lemma_pow256_mono((i + 1) as nat, width as nat); }
        span = span * 256;
        i = i + 1;
    }
    if raw >= span / 2 {
        raw as i64 - span as i64
    } else {
        raw as i64
    }
}

fn read_unsigned(cursor: &mut ByteCursor<'_>, width: usize) -> (r: Result<u64, GridError>)
    ensures
        final(cursor).data() == old(cursor).data(),
        (r, final(cursor).pos()) == spec_read_unsigned(old(cursor).data(), old(cursor).pos(), width),
        r is Ok ==> r->Ok_0 < pow256(width as nat),
{
    if width == 0 || width > 8 {
        return Err(GridError::MeasurementMalformed("unsupported field width"));
    }
    let _start = cursor.position();
    let bytes = cursor.take(width)?;
    let mut value: u64 = 0;
    let mut i: usize = width;
    proof {
        assert(bytes@.skip(width as int) =~= Seq::<u8>::empty());
        lemma_pow256_mono(width as nat, 8);
        lemma_pow_values();
    }
    while i > 0
        invariant
            i <= width <= 8,
            bytes@.len() == width,
            value == spec_le(bytes@.skip(i as int)),
        decreases i,
    {
        proof {
            lemma_le_bound(bytes@.skip(i as int));
            lemma_pow256_mono((width - i) as nat, 7);
            lemma_pow_values();
            assert(bytes@.skip(i - 1).drop_first() =~= bytes@.skip(i as int));
        }
        i = i - 1;
        value = value * 256 + bytes[i] as u64;
    }
    proof {
        assert(bytes@.skip(0) =~= bytes@);
        lemma_le_bound(bytes@);
    }
    Ok(value)
}

/// Powers of ten.
pub open spec fn pow10(k: nat) -> nat
    decreases k,
{
    if k == 0 { 1 } else { 10 * pow10((k - 1) as nat) }
}

/// Powers of sixteen.
pub open spec fn pow16(k: nat) -> nat
    decreases k,
{
    if k == 0 { 1 } else { 16 * pow16((k - 1) as nat) }
}

proof fn lemma_pow_values()
    ensures
        pow256(7) == 0x100_0000_0000_0000,
        pow256(8) == 0x1_0000_0000_0000_0000,
        pow16(16) == 0x1_0000_0000_0000_0000,
        pow10(15) == 1_000_000_000_000_000,
{
    reveal_with_fuel(pow256, 9);
    reveal_with_fuel(pow16, 17);
    reveal_with_fuel(pow10, 16);
}

proof fn lemma_pow_mono(a: nat, b: nat)
    requires
        a <= b,
    ensures
        pow10(a) <= pow10(b),
        pow16(a) <= pow16(b),
    decreases b,
{
    if a < b {
        lemma_pow_mono(a, (b - 1) as nat);
    }
}

fn normalize_packed_bcd(value: i64, codec: FieldCodec) -> (r: i64)
    ensures
        r == spec_normalize(value, codec),
{
    match codec {
        FieldCodec::PackedBcd => {},
        _ => return value,
    }
    let mut raw: u64 = value as u64;
    let ghost v0: nat = value as u64 as nat;
    let mut multiplier: i64 = 1;
    let mut out: i64 = 0;
    let ghost mut k: nat = 0;
    proof {
        lemma_pow_values();
        assert(pow16(0) == 1);
        assert(pow10(0) == 1);
    }
    while raw != 0
        invariant
            k <= 16,
            codec == FieldCodec::PackedBcd,
            v0 == value as u64 as nat,
            raw as nat == v0 / pow16(k),
            v0 < pow16(16),
            multiplier == pow10(k),
            0 <= out < multiplier,
            pow10(15) == 1_000_000_000_000_000,
            spec_bcd(v0) == match spec_bcd(raw as nat) {
                Some(w) => Some((out + multiplier * w) as nat),
                None => None::<nat>,
            },
        decreases raw,
    {
        proof {
            if k >= 16 {
                lemma_pow_mono(16, k);
                assert(v0 / pow16(k) == 0) by (nonlinear_arith)
                    requires v0 < pow16(16), pow16(16) <= pow16(k);
            }
            lemma_pow_mono(0, k);
        }
        assert((raw & 0x0f) == raw % 16 && raw >> 4 == raw / 16) by (bit_vector);
        let digit = (raw & 0x0f) as i64;
        if digit > 9 {
            assert(spec_bcd(raw as nat) is None);
            assert(spec_bcd(v0) is None);
            assert(codec == FieldCodec::PackedBcd);
            return value;
        }
        proof {
            lemma_pow_mono(k, 15);
            let w = raw as nat;
            let mult = multiplier as int;
            assert(out + digit * mult < 10 * mult) by (nonlinear_arith)
                requires 0 <= out < mult, 0 <= digit <= 9;
            match spec_bcd(w / 16) {
                Some(x) => {
                    assert(out + mult * (digit + 10 * x) == (out + digit * mult) + (10 * mult) * x) by (nonlinear_arith);
                },
                None => {},
            }
            vstd::arithmetic::div_mod::lemma_div_denominator(v0 as int, pow16(k) as int, 16);
        }
        out = out + digit * multiplier;
        multiplier = multiplier * 10;
        raw = raw >> 4;
        proof { k = k + 1; }
    }
    assert(spec_bcd(0) == Some(0nat));
    assert(multiplier * 0 == 0);
    out
}


/// The field kind a value was decoded for.
pub open spec fn value_kind(v: ReadingValue) -> FieldKind {
    match v {
        ReadingValue::Integer { kind, .. } => kind,
        ReadingValue::Bitmap { kind, .. } => kind,
        ReadingValue::Null { kind } => kind,
    }
}

proof fn lemma_values_shape(fields: Seq<FieldSpec>, k: int, d: Seq<u8>, p: int, acc: Seq<ReadingValue>)
    requires
        0 <= k <= fields.len(),
        acc.len() == k,
        forall|j: int| 0 <= j < k ==> value_kind(#[trigger] acc[j]) == fields[j].kind,
    ensures
        spec_values_from(fields, k, d, p, acc) matches Ok(v) ==> v.len() == fields.len()
            && forall|j: int| 0 <= j < fields.len() ==> value_kind(#[trigger] v[j]) == fields[j].kind,
    decreases fields.len() - k,
{
    if k < fields.len() {
        let f = fields[k];
        if f.nullable && spec_remaining(d, p) > 0 && 0 <= p && d[p] == 0xff {
            let acc2 = acc.push(ReadingValue::Null { kind: f.kind });
            assert forall|j: int| 0 <= j < k + 1 implies value_kind(#[trigger] acc2[j]) == fields[j].kind by {
                if j < k { assert(acc2[j] == acc[j]); }
            }
            lemma_values_shape(fields, k + 1, d, p + 1, acc2);
        } else {
            let (r, q) = spec_decode_value(f, d, p);
            if r is Ok {
                let acc2 = acc.push(r->Ok_0);
                assert forall|j: int| 0 <= j < k + 1 implies value_kind(#[trigger] acc2[j]) == fields[j].kind by {
                    if j < k { assert(acc2[j] == acc[j]); }
                }
                lemma_values_shape(fields, k + 1, d, q, acc2);
            }
        }
    }
}

/// A decoded reading names a template the bank holds, and carries one
/// value per field of that template, each for that field's kind.
pub proof fn law_reading_follows_template(d: Seq<u8>, bank: BankView, diag: DiagnosticsView)
    ensures
        spec_decode_reading(d, bank, diag).0 matches Ok(ro) ==> (
            template_index(bank.templates, ro.template_id, ro.template_revision) matches Some(i)
            && ro.values.len() == bank.templates[i].fields.len()
            && forall|j: int| 0 <= j < ro.values.len() ==> value_kind(#[trigger] ro.values[j]) == bank.templates[i].fields[j].kind),
{
    let (r, p) = spec_read_u32(d, 0);
    let (r2, p2) = spec_read_u16(d, p);
    let (r3, p3) = spec_read_u8(d, p2);
    if r is Ok && r2 is Ok && r3 is Ok {
        let id = r2->Ok_0;
        let rev = r3->Ok_0;
        lemma_template_index(bank.templates, id, rev);
        if template_index(bank.templates, id, rev) is Some {
            let i = template_index(bank.templates, id, rev)->0;
            let (r4, p4) = spec_read_u8(d, p3);
            let (r5, p5) = spec_read_u8(d, p4);
            let (rt, p6) = spec_read_svar_i32(d, p5);
            lemma_values_shape(bank.templates[i].fields, 0, d, p6, Seq::empty());
        }
    }
}


proof fn lemma_values_errors(fields: Seq<FieldSpec>, k: int, d: Seq<u8>, p: int, acc: Seq<ReadingValue>)
    requires
        forall|j: int| 0 <= j < fields.len() ==> width_ok(#[trigger] fields[j]),
    ensures
        spec_values_from(fields, k, d, p, acc) matches Err(e) ==> e is Truncated,
    decreases fields.len() - k,
{
    if 0 <= k < fields.len() {
        let f = fields[k];
        assert(width_ok(f));
        if f.nullable && spec_remaining(d, p) > 0 && 0 <= p && d[p] == 0xff {
            lemma_values_errors(fields, k + 1, d, p + 1, acc.push(ReadingValue::Null { kind: f.kind }));
        } else {
            let (r, q) = spec_decode_value(f, d, p);
            if r is Ok {
                lemma_values_errors(fields, k + 1, d, q, acc.push(r->Ok_0));
            }
        }
    }
}

/// When every field in the bank is one to eight bytes wide, a reading
/// fails only for bytes that ran out or a template that is not there; the
/// error for an unsupported width never arises.
pub proof fn law_reading_errors(d: Seq<u8>, bank: BankView, diag: DiagnosticsView)
    requires
        bank_widths_ok(bank.templates),
    ensures
        spec_decode_reading(d, bank, diag).0 matches Err(e) ==> e is Truncated || e is TemplateMissing,
{
    let (r, p) = spec_read_u32(d, 0);
    let (r2, p2) = spec_read_u16(d, p);
    let (r3, p3) = spec_read_u8(d, p2);
    if r is Ok && r2 is Ok && r3 is Ok {
        let id = r2->Ok_0;
        let rev = r3->Ok_0;
        lemma_template_index(bank.templates, id, rev);
        if template_index(bank.templates, id, rev) is Some {
            let i = template_index(bank.templates, id, rev)->0;
            assert(template_widths_ok(bank.templates[i]));
            let (r4, p4) = spec_read_u8(d, p3);
            let (r5, p5) = spec_read_u8(d, p4);
            let (rt, p6) = spec_read_svar_i32(d, p5);
            lemma_values_errors(bank.templates[i].fields, 0, d, p6, Seq::empty());
        }
    }
}


/// Sign extension gives the two's-complement reading of a `w`-byte word:
/// a value congruent to the raw word modulo 256^w that lies in
/// [-256^w / 2, 256^w / 2).
pub proof fn law_sign_extend(raw: u64, w: usize)
    requires
        1 <= w <= 8,
        raw < pow256(w as nat),
    ensures
        (sign_extend(raw, w) - raw) % (pow256(w as nat) as int) == 0,
        -((pow256(w as nat) / 2) as int) <= sign_extend(raw, w) < (pow256(w as nat) / 2) as int,
{
    lemma_pow_values();
    lemma_pow256_mono(w as nat, 8);
    lemma_pow256_mono(1, w as nat);
    reveal_with_fuel(pow256, 2);
    let m = pow256(w as nat);
    assert(m == 256 * pow256((w - 1) as nat));
    assert(m % 2 == 0);
    if w >= 8 {
        if raw < 0x8000_0000_0000_0000 {
            assert((raw as i64) as int == raw as int) by (bit_vector)
                requires raw < 0x8000_0000_0000_0000u64;
            assert((sign_extend(raw, w) - raw) == 0);
            assert(0int % (m as int) == 0) by (nonlinear_arith) requires m > 0;
        } else {
            assert((raw as i64) as int == raw as int - 0x1_0000_0000_0000_0000int) by (bit_vector)
                requires raw >= 0x8000_0000_0000_0000u64;
            assert(sign_extend(raw, w) - raw == -(m as int));
            assert((-(m as int)) % (m as int) == 0) by (nonlinear_arith) requires m > 0;
        }
    } else {
        lemma_pow256_mono(w as nat, 7);
        assert(m <= 0x100_0000_0000_0000);
        if raw as int >= m / 2 {
            assert(sign_extend(raw, w) == raw - m);
            assert((-(m as int)) % (m as int) == 0) by (nonlinear_arith) requires m > 0;
        } else {
            assert(sign_extend(raw, w) == raw);
            assert(0int % (m as int) == 0) by (nonlinear_arith) requires m > 0;
        }
    }
}

/// A signed field of one to eight bytes decodes to the two's-complement
/// value of its little-endian bytes: congruent to them modulo 256^w and
/// within [-256^w / 2, 256^w / 2).
pub proof fn law_signed_field(f: FieldSpec, d: Seq<u8>, p: int)
    requires
        f.codec == FieldCodec::Signed,
        1 <= f.width <= 8,
        0 <= p,
        p + f.width <= d.len(),
    ensures
        spec_decode_value(f, d, p).0 matches Ok(v) && v matches ReadingValue::Integer { kind, value, scale }
            && kind == f.kind && scale == f.scale
            && (value - spec_le(d.subrange(p, p + f.width))) % (pow256(f.width as nat) as int) == 0
            && -((pow256(f.width as nat) / 2) as int) <= value < (pow256(f.width as nat) / 2) as int,
{
    let bytes = d.subrange(p, p + f.width);
    lemma_le_bound(bytes);
    lemma_pow_values();
    lemma_pow256_mono(f.width as nat, 8);
    let raw = spec_le(bytes) as u64;
    assert(raw as int == spec_le(bytes));
    law_sign_extend(raw, f.width);
}


/// Zig-zag decoding undoes zig-zag encoding: the non-negative `n` is
/// written as `2n`, the negative `n` as `-2n - 1`.
pub proof fn law_zigzag64(n: i64)
    ensures
        n >= 0 ==> zigzag64((2 * n) as u64) == n,
        n < 0 ==> zigzag64((-2 * n - 1) as u64) == n,
{
}


/// The packed BCD form of `n`: one decimal digit per nibble, the lowest
/// digit in the lowest nibble.
pub open spec fn bcd_encode(n: nat) -> nat
    decreases n,
{
    if n < 10 { n } else { 16 * bcd_encode(n / 10) + n % 10 }
}

/// Packed BCD reads back as the decimal number it encodes, and a value
/// with a nibble above 9 is not BCD.
pub proof fn law_packed_bcd(n: nat, raw: nat)
    ensures
        spec_bcd(bcd_encode(n)) == Some(n),
        raw % 16 > 9 ==> spec_bcd(raw) is None,
    decreases n,
{
    if n >= 10 {
        law_packed_bcd(n / 10, 0);
        lemma_bcd_positive(n / 10);
        let e = bcd_encode(n / 10);
        let raw_n = bcd_encode(n);
        assert(raw_n == 16 * e + n % 10);
        assert(raw_n % 16 == n % 10);
        assert(raw_n / 16 == e);
        assert(raw_n != 0);
        assert(spec_bcd(raw_n) == Some((raw_n % 16) + 10 * (n / 10)));
    } else {
        assert(bcd_encode(n) == n);
        if n > 0 {
            assert(n / 16 == 0);
            assert(spec_bcd(0) == Some(0nat));
            assert(spec_bcd(n) == Some(n % 16 + 10 * 0));
        }
    }
}

proof fn lemma_bcd_positive(n: nat)
    requires
        n > 0,
    ensures
        bcd_encode(n) > 0,
    decreases n,
{
    if n >= 10 {
        lemma_bcd_positive(n / 10);
    }
}

} // verus!
