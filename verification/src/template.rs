use vstd::prelude::*;
use crate::cursor::{ByteCursor, spec_read_u8, spec_read_u16};
use crate::error::GridError;
use crate::model::{Diagnostics, DiagnosticsView};
use crate::tlv::{find_tlv, parse_tlvs, spec_find_tlv, spec_parse_tlvs, TlvClass};

verus! {

#[derive(Debug, Clone, Copy, PartialEq, Eq, Structural)]
pub enum FieldKind {
    Voltage,
    Current,
    ActivePower,
    ReactivePower,
    Frequency,
    EnergyImport,
    EnergyExport,
    Temperature,
    TamperFlags,
    OutageCause,
    Custom(u8),
}

/// The quantity a field identifier names.
pub open spec fn field_kind_of(id: u8) -> FieldKind {
    if id == 0x01 {
        FieldKind::Voltage
    } else if id == 0x02 {
        FieldKind::Current
    } else if id == 0x03 {
        FieldKind::ActivePower
    } else if id == 0x04 {
        FieldKind::ReactivePower
    } else if id == 0x05 {
        FieldKind::Frequency
    } else if id == 0x06 {
        FieldKind::EnergyImport
    } else if id == 0x07 {
        FieldKind::EnergyExport
    } else if id == 0x08 {
        FieldKind::Temperature
    } else if id == 0x09 {
        FieldKind::TamperFlags
    } else if id == 0x0a {
        FieldKind::OutageCause
    } else {
        FieldKind::Custom(id)
    }
}

impl FieldKind {
    pub fn from_id(id: u8) -> (k: Self)
        ensures
            k == field_kind_of(id),
    {
        match id {
            0x01 => FieldKind::Voltage,
            0x02 => FieldKind::Current,
            0x03 => FieldKind::ActivePower,
            0x04 => FieldKind::ReactivePower,
            0x05 => FieldKind::Frequency,
            0x06 => FieldKind::EnergyImport,
            0x07 => FieldKind::EnergyExport,
            0x08 => FieldKind::Temperature,
            0x09 => FieldKind::TamperFlags,
            0x0a => FieldKind::OutageCause,
            other => FieldKind::Custom(other),
        }
    }
}

#[derive(Debug, Clone, Copy, PartialEq, Eq, Structural)]
pub enum FieldCodec {
    Unsigned,
    Signed,
    ZigZag,
    FixedPoint,
    Bitmap,
    PackedBcd,
}

/// The codec named by the low three bits of an identifier.
pub open spec fn codec_of(id: u8) -> FieldCodec {
    let low = id & 0x07;
    if low == 0 {
        FieldCodec::Unsigned
    } else if low == 1 {
        FieldCodec::Signed
    } else if low == 2 {
        FieldCodec::ZigZag
    } else if low == 3 {
        FieldCodec::FixedPoint
    } else if low == 4 {
        FieldCodec::Bitmap
    } else {
        FieldCodec::PackedBcd
    }
}

impl FieldCodec {
    pub fn from_id(id: u8) -> (c: Self)
        ensures
            c == codec_of(id),
    {
        match id & 0x07 {
            0 => FieldCodec::Unsigned,
            1 => FieldCodec::Signed,
            2 => FieldCodec::ZigZag,
            3 => FieldCodec::FixedPoint,
            4 => FieldCodec::Bitmap,
            _ => FieldCodec::PackedBcd,
        }
    }
}

#[derive(Debug, Clone, Copy, PartialEq, Eq, Structural)]
pub struct FieldSpec {
    pub kind: FieldKind,
    pub width: usize,
    pub scale: i8,
    pub codec: FieldCodec,
    pub nullable: bool,
}

#[derive(Debug, Clone)]
pub struct Template {
    pub id: u16,
    pub revision: u8,
    pub flags: u8,
    pub interval_seconds: u16,
    pub fields: Vec<FieldSpec>,
    pub vendor_note: Option<Vec<u8>>,
}

pub struct TemplateView {
    pub id: u16,
    pub revision: u8,
    pub flags: u8,
    pub interval_seconds: u16,
    pub fields: Seq<FieldSpec>,
    pub vendor_note: Option<Seq<u8>>,
}

impl View for Template {
    type V = TemplateView;

    open spec fn view(&self) -> TemplateView {
        TemplateView {
            id: self.id,
            revision: self.revision,
            flags: self.flags,
            interval_seconds: self.interval_seconds,
            fields: self.fields@,
            vendor_note: match self.vendor_note {
                Some(v) => Some(v@),
                None => None,
            },
        }
    }
}

/// Templates taken by their views.
pub open spec fn templates_view(v: Seq<Template>) -> Seq<TemplateView> {
    v.map_values(|t: Template| t@)
}

// ---------------------------------------------------------------------
// The template format
// ---------------------------------------------------------------------

/// One field description: kind byte, a byte holding the width less one
/// (low three bits) and the codec (next three bits), the scale, and a
/// byte whose low bit marks the field nullable.
pub open spec fn spec_field_at(d: Seq<u8>, p: int) -> (Result<FieldSpec, GridError>, int) {
    let (r, p) = spec_read_u8(d, p);
    match r {
        Err(e) => (Err(e), p),
        Ok(kind_id) => {
            let (r, p) = spec_read_u8(d, p);
            match r {
                Err(e) => (Err(e), p),
                Ok(raw) => {
                    let (r, p) = spec_read_u8(d, p);
                    match r {
                        Err(e) => (Err(e), p),
                        Ok(scale) => {
                            let (r, p) = spec_read_u8(d, p);
                            match r {
                                Err(e) => (Err(e), p),
                                Ok(nb) => (Ok(FieldSpec {
                                    kind: field_kind_of(kind_id),
                                    width: ((raw & 0x07) + 1) as usize,
                                    scale: scale as i8,
                                    codec: codec_of(raw >> 3),
                                    nullable: nb & 1 != 0,
                                }), p),
                            }
                        },
                    }
                },
            }
        },
    }
}

/// `n` more field descriptions from `p`, after `acc`.
pub open spec fn spec_fields_from(d: Seq<u8>, p: int, n: nat, acc: Seq<FieldSpec>) -> Result<Seq<FieldSpec>, GridError>
    decreases n,
{
    if n == 0 {
        Ok(acc)
    } else {
        let (r, q) = spec_field_at(d, p);
        match r {
            Err(e) => Err(e),
            Ok(f) => spec_fields_from(d, q, (n - 1) as nat, acc.push(f)),
        }
    }
}

/// A field list: a count of at most 64, then that many descriptions.
pub open spec fn spec_parse_fields(d: Seq<u8>) -> Result<Seq<FieldSpec>, GridError> {
    let (r, p) = spec_read_u8(d, 0);
    match r {
        Err(e) => Err(e),
        Ok(count) => if count > 64 {
            Err(GridError::TemplateMalformed("too many fields"))
        } else {
            spec_fields_from(d, p, count as nat, Seq::empty())
        },
    }
}

/// The header record's fields: id, revision, flags and the interval,
/// which is 900 seconds when the record is too short to hold it.
pub open spec fn spec_template_header(h: Seq<u8>) -> Result<(u16, u8, u8, u16), GridError> {
    let (r, p) = spec_read_u16(h, 0);
    match r {
        Err(e) => Err(e),
        Ok(id) => {
            let (r, p) = spec_read_u8(h, p);
            match r {
                Err(e) => Err(e),
                Ok(revision) => {
                    let (r, p) = spec_read_u8(h, p);
                    match r {
                        Err(e) => Err(e),
                        Ok(flags) => {
                            let interval = match spec_read_u16(h, p).0 {
                                Ok(v) => v,
                                Err(_) => 900u16,
                            };
                            Ok((id, revision, flags, interval))
                        },
                    }
                },
            }
        },
    }
}

/// A template payload: TLV records holding a header (core, tag 1), a
/// field list (meter, tag 2) and an optional vendor note (vendor, tag 3).
pub open spec fn spec_parse_template(d: Seq<u8>) -> Result<TemplateView, GridError> {
    match spec_parse_tlvs(d) {
        Err(e) => Err(e),
        Ok(tlvs) => match spec_find_tlv(tlvs, TlvClass::Core, 0x01) {
            None => Err(GridError::TemplateMalformed("template header missing")),
            Some(header) => match spec_template_header(header.value) {
                Err(e) => Err(e),
                Ok((id, revision, flags, interval_seconds)) => match spec_find_tlv(tlvs, TlvClass::Meter, 0x02) {
                    None => Err(GridError::TemplateMalformed("field list missing")),
                    Some(fl) => match spec_parse_fields(fl.value) {
                        Err(e) => Err(e),
                        Ok(fields) => Ok(TemplateView {
                            id,
                            revision,
                            flags,
                            interval_seconds,
                            fields,
                            vendor_note: match spec_find_tlv(tlvs, TlvClass::Vendor, 0x03) {
                                Some(v) => Some(v.value),
                                None => None,
                            },
                        }),
                    },
                },
            },
        },
    }
}

fn parse_field(cursor: &mut ByteCursor<'_>) -> (r: Result<FieldSpec, GridError>)
    ensures
        final(cursor).data() == old(cursor).data(),
        (r, final(cursor).pos()) == spec_field_at(old(cursor).data(), old(cursor).pos()),
{
    let kind = FieldKind::from_id(cursor.read_u8()?);
    let raw = cursor.read_u8()?;
    let width = ((raw & 0x07) as usize) + 1;
    let codec = FieldCodec::from_id(raw >> 3);
    let scale = cursor.read_i8()?;
    let nullable = cursor.read_u8()? & 1 != 0;
    Ok(FieldSpec { kind, width, scale, codec, nullable })
}

fn parse_fields(data: &[u8]) -> (r: Result<Vec<FieldSpec>, GridError>)
    ensures
        (match r {
            Ok(v) => spec_parse_fields(data@) == Ok::<Seq<FieldSpec>, GridError>(v@),
            Err(e) => spec_parse_fields(data@) == Err::<Seq<FieldSpec>, GridError>(e),
        }),
{
    let mut cursor = ByteCursor::new(data);
    let field_count = cursor.read_u8()? as usize;
    if field_count > 64 {
        return Err(GridError::TemplateMalformed("too many fields"));
    }
    let mut fields: Vec<FieldSpec> = Vec::new();
    let mut k: usize = 0;
    while k < field_count
        invariant
            k <= field_count,
            cursor.data() == data@,
            spec_parse_fields(data@) == spec_fields_from(data@, cursor.pos(), (field_count - k) as nat, fields@),
        decreases field_count - k,
    {
        let field = parse_field(&mut cursor)?;
        fields.push(field);
        k = k + 1;
    }
    Ok(fields)
}

/// Parses a template payload.
pub fn parse_template(payload: &[u8]) -> (r: Result<Template, GridError>)
    ensures
        (match r {
            Ok(t) => spec_parse_template(payload@) == Ok::<TemplateView, GridError>(t@),
            Err(e) => spec_parse_template(payload@) == Err::<TemplateView, GridError>(e),
        }),
{
    let tlvs = parse_tlvs(payload)?;
    let header = match find_tlv(tlvs.as_slice(), TlvClass::Core, 0x01) {
        Some(h) => h,
        None => return Err(GridError::TemplateMalformed("template header missing")),
    };
    let mut cursor = ByteCursor::new(header.value);
    let id = cursor.read_u16_le()?;
    let revision = cursor.read_u8()?;
    let flags = cursor.read_u8()?;
    let interval_seconds = match cursor.read_u16_le() {
        Ok(v) => v,
        Err(_) => 900,
    };
    let fields_tlv = match find_tlv(tlvs.as_slice(), TlvClass::Meter, 0x02) {
        Some(f) => f,
        None => return Err(GridError::TemplateMalformed("field list missing")),
    };
    let fields = parse_fields(fields_tlv.value)?;
    let vendor_note = match find_tlv(tlvs.as_slice(), TlvClass::Vendor, 0x03) {
        Some(item) => Some(vstd::slice::slice_to_vec(item.value)),
        None => None,
    };
    Ok(Template { id, revision, flags, interval_seconds, fields, vendor_note })
}

// ---------------------------------------------------------------------
// The template bank
// ---------------------------------------------------------------------

/// Whether a template carries the given id and revision.
pub open spec fn has_key(t: TemplateView, id: u16, revision: u8) -> bool {
    t.id == id && t.revision == revision
}

/// Index of the first template with the given key.
pub open spec fn template_index(s: Seq<TemplateView>, id: u16, revision: u8) -> Option<int>
    decreases s.len(),
{
    if s.len() == 0 {
        None
    } else if has_key(s[0], id, revision) {
        Some(0)
    } else {
        match template_index(s.drop_first(), id, revision) {
            Some(i) => Some(i + 1),
            None => None,
        }
    }
}

/// The first index found is in range, holds the key, and no earlier
/// template does; when none is found, no template holds the key.
pub proof fn lemma_template_index(s: Seq<TemplateView>, id: u16, revision: u8)
    ensures
        match template_index(s, id, revision) {
            Some(i) => 0 <= i < s.len() && has_key(s[i], id, revision)
                && forall|j: int| 0 <= j < i ==> !has_key(#[trigger] s[j], id, revision),
            None => forall|j: int| 0 <= j < s.len() ==> !has_key(#[trigger] s[j], id, revision),
        },
    decreases s.len(),
{
    if s.len() > 0 {
        lemma_template_index(s.drop_first(), id, revision);
        if !has_key(s[0], id, revision) {
            assert forall|j: int| 1 <= j < s.len() implies #[trigger] s[j] == s.drop_first()[j - 1] by {}
        }
    }
}

/// Installing replaces the template with the same key, or appends.
pub open spec fn spec_install(s: Seq<TemplateView>, t: TemplateView) -> Seq<TemplateView> {
    match template_index(s, t.id, t.revision) {
        Some(i) => s.update(i, t),
        None => s.push(t),
    }
}

/// A template is dominated when a kept one has its key and at least as
/// many fields.
pub open spec fn dominated(kept: Seq<TemplateView>, t: TemplateView) -> bool {
    exists|j: int| 0 <= j < kept.len() && has_key(#[trigger] kept[j], t.id, t.revision)
        && kept[j].fields.len() >= t.fields.len()
}

/// Compaction keeps, in order, each template not dominated by one kept
/// before it.
pub open spec fn spec_compact(s: Seq<TemplateView>) -> Seq<TemplateView>
    decreases s.len(),
{
    if s.len() == 0 {
        s
    } else {
        let kept = spec_compact(s.drop_last());
        if dominated(kept, s.last()) { kept } else { kept.push(s.last()) }
    }
}

/// The templates without those carrying the given key.
pub open spec fn spec_remove_key(s: Seq<TemplateView>, id: u16, revision: u8) -> Seq<TemplateView>
    decreases s.len(),
{
    if s.len() == 0 {
        s
    } else {
        let rest = spec_remove_key(s.drop_last(), id, revision);
        if has_key(s.last(), id, revision) { rest } else { rest.push(s.last()) }
    }
}

#[derive(Debug, Clone)]
pub struct TemplateBank {
    templates: Vec<Template>,
    last_key: Option<(u16, u8)>,
}

/// The installed templates in order and the key of the last successful
/// lookup.
pub struct BankView {
    pub templates: Seq<TemplateView>,
    pub last_key: Option<(u16, u8)>,
}

impl View for TemplateBank {
    type V = BankView;

    closed spec fn view(&self) -> BankView {
        BankView { templates: templates_view(self.templates@), last_key: self.last_key }
    }
}

/// Parsing a payload and installing the template, counted in `diag`; on
/// a parse error nothing changes.
pub open spec fn spec_install_payload(bank: BankView, payload: Seq<u8>, diag: DiagnosticsView) -> (Result<(), GridError>, BankView, DiagnosticsView) {
    match spec_parse_template(payload) {
        Err(e) => (Err(e), bank, diag),
        Ok(t) => (
            Ok(()),
            BankView { templates: spec_install(bank.templates, t), ..bank },
            DiagnosticsView { templates_installed: diag.templates_installed + 1, ..diag },
        ),
    }
}

/// A control payload: opcode 1 installs the rest of the payload, opcode 2
/// compacts the bank, opcode 3 deletes the templates with the id and
/// revision that follow; other opcodes are refused.
pub open spec fn spec_apply_control(bank: BankView, d: Seq<u8>, diag: DiagnosticsView) -> (Result<(), GridError>, BankView, DiagnosticsView) {
    let (r, p) = spec_read_u8(d, 0);
    match r {
        Err(e) => (Err(e), bank, diag),
        Ok(opcode) => if opcode == 0x01 {
            spec_install_payload(bank, d.subrange(1, d.len() as int), diag)
        } else if opcode == 0x02 {
            (
                Ok(()),
                BankView { templates: spec_compact(bank.templates), ..bank },
                DiagnosticsView { templates_compacted: diag.templates_compacted + 1, ..diag },
            )
        } else if opcode == 0x03 {
            let (r, p) = spec_read_u16(d, p);
            match r {
                Err(e) => (Err(e), bank, diag),
                Ok(id) => {
                    let (r, _p) = spec_read_u8(d, p);
                    match r {
                        Err(e) => (Err(e), bank, diag),
                        Ok(revision) => (
                            Ok(()),
                            BankView { templates: spec_remove_key(bank.templates, id, revision), ..bank },
                            diag,
                        ),
                    }
                },
            }
        } else {
            (Err(GridError::TemplateMalformed("unknown template control opcode")), bank, diag)
        },
    }
}

/// A lookup finds the first template with the key and records the key.
pub open spec fn spec_lookup(bank: BankView, id: u16, revision: u8) -> (Option<TemplateView>, BankView) {
    match template_index(bank.templates, id, revision) {
        Some(i) => (Some(bank.templates[i]), BankView { last_key: Some((id, revision)), ..bank }),
        None => (None, bank),
    }
}

/// The cached template: the one held under the key of the last lookup,
/// asked for by that same key.
pub open spec fn spec_cached(bank: BankView, id: u16, revision: u8) -> Option<TemplateView> {
    if bank.last_key == Some((id, revision)) {
        match template_index(bank.templates, id, revision) {
            Some(i) => Some(bank.templates[i]),
            None => None,
        }
    } else {
        None
    }
}

impl TemplateBank {
    pub fn new() -> (b: Self)
        ensures
            b@.templates == Seq::<TemplateView>::empty(),
            b@.last_key is None,
    {
        let b = TemplateBank { templates: Vec::new(), last_key: None };
        proof { assert(b@.templates =~= Seq::<TemplateView>::empty()); }
        b
    }

    fn find_index(&self, id: u16, revision: u8) -> (r: Option<usize>)
        ensures
            match r {
                Some(i) => template_index(self@.templates, id, revision) == Some(i as int),
                None => template_index(self@.templates, id, revision) is None,
            },
    {
        let ghost s = self@.templates;
        let mut i: usize = 0;
        proof { assert(s.skip(0) =~= s); }
        while i < self.templates.len()
            invariant
                i <= s.len(),
                s == self@.templates,
                s.len() == self.templates@.len(),
                template_index(s, id, revision) == match template_index(s.skip(i as int), id, revision) {
                    Some(j) => Some(j + i),
                    None => None::<int>,
                },
            decreases s.len() - i,
        {
            proof {
                assert(s.skip(i as int)[0] == s[i as int]);
                assert(s.skip(i as int).drop_first() =~= s.skip(i + 1));
            }
            if self.templates[i].id == id && self.templates[i].revision == revision {
                return Some(i);
            }
            i = i + 1;
        }
        None
    }

    pub fn install_from_payload(&mut self, payload: &[u8], diagnostics: &mut Diagnostics) -> (r: Result<(), GridError>)
        requires
            old(diagnostics).templates_installed < usize::MAX,
        ensures
            (r, final(self)@, final(diagnostics)@) == spec_install_payload(old(self)@, payload@, old(diagnostics)@),
    {
        let template = parse_template(payload)?;
        let ghost tv = template@;
        let ghost before = self@.templates;
        proof { lemma_template_index(before, tv.id, tv.revision); }
        match self.find_index(template.id, template.revision) {
            Some(i) => {
                self.templates.set(i, template);
                proof { assert(self@.templates =~= before.update(i as int, tv)); }
            },
            None => {
                self.templates.push(template);
                proof { assert(self@.templates =~= before.push(tv)); }
            },
        }
        diagnostics.templates_installed = diagnostics.templates_installed + 1;
        Ok(())
    }

    pub fn apply_control(&mut self, payload: &[u8], diagnostics: &mut Diagnostics) -> (r: Result<(), GridError>)
        requires
            old(diagnostics).templates_installed < usize::MAX,
            old(diagnostics).templates_compacted < usize::MAX,
        ensures
            (r, final(self)@, final(diagnostics)@) == spec_apply_control(old(self)@, payload@, old(diagnostics)@),
    {
        let mut cursor = ByteCursor::new(payload);
        let opcode = cursor.read_u8()?;
        match opcode {
            0x01 => {
                let remaining = cursor.remaining();
                let template_payload = cursor.take(remaining)?;
                self.install_from_payload(template_payload, diagnostics)
            },
            0x02 => {
                self.compact(diagnostics);
                Ok(())
            },
            0x03 => {
                let id = cursor.read_u16_le()?;
                let revision = cursor.read_u8()?;
                self.remove_key(id, revision);
                Ok(())
            },
            _ => Err(GridError::TemplateMalformed("unknown template control opcode")),
        }
    }

    fn remove_key(&mut self, id: u16, revision: u8)
        ensures
            final(self)@ == (BankView { templates: spec_remove_key(old(self)@.templates, id, revision), ..old(self)@ }),
    {
        let ghost orig = old(self)@.templates;
        let mut i: usize = 0;
        let ghost mut k: int = 0;
        proof {
            assert(orig.take(0) =~= Seq::<TemplateView>::empty());
            assert(self@.templates =~= spec_remove_key(orig.take(0), id, revision) + orig.skip(0));
        }
        while i < self.templates.len()
            invariant
                0 <= k <= orig.len(),
                self.last_key == old(self).last_key,
                i == spec_remove_key(orig.take(k), id, revision).len(),
                self@.templates == spec_remove_key(orig.take(k), id, revision) + orig.skip(k),
            decreases orig.len() - k,
        {
            let ghost kept = spec_remove_key(orig.take(k), id, revision);
            proof {
                assert(orig.take(k + 1).drop_last() =~= orig.take(k));
                assert(orig.take(k + 1).last() == orig[k]);
                assert(self@.templates[i as int] == orig[k]);
            }
            proof { assert(self@.templates[i as int] == self.templates@[i as int]@); }
            if self.templates[i].id == id && self.templates[i].revision == revision {
                let ghost before = self@.templates;
                let _gone = self.templates.remove(i);
                proof {
                    assert(self@.templates =~= before.remove(i as int));
                    assert(before.remove(i as int) =~= kept + orig.skip(k + 1));
                }
            } else {
                proof {
                    assert(self@.templates =~= kept.push(orig[k]) + orig.skip(k + 1));
                }
                i = i + 1;
            }
            proof { k = k + 1; }
        }
        proof {
            assert(orig.take(k) =~= orig);
            assert(orig.skip(k) =~= Seq::<TemplateView>::empty());
            assert(self@.templates =~= spec_remove_key(orig, id, revision));
        }
    }

    fn compact(&mut self, diagnostics: &mut Diagnostics)
        requires
            old(diagnostics).templates_compacted < usize::MAX,
        ensures
            final(self)@ == (BankView { templates: spec_compact(old(self)@.templates), ..old(self)@ }),
            final(diagnostics)@ == (DiagnosticsView {
                templates_compacted: old(diagnostics)@.templates_compacted + 1,
                ..old(diagnostics)@
            }),
    {
        let ghost orig = old(self)@.templates;
        let mut i: usize = 0;
        let ghost mut k: int = 0;
        proof {
            assert(orig.take(0) =~= Seq::<TemplateView>::empty());
            assert(self@.templates =~= spec_compact(orig.take(0)) + orig.skip(0));
        }
        while i < self.templates.len()
            invariant
                0 <= k <= orig.len(),
                self.last_key == old(self).last_key,
                i == spec_compact(orig.take(k)).len(),
                self@.templates == spec_compact(orig.take(k)) + orig.skip(k),
            decreases orig.len() - k,
        {
            let ghost kept = spec_compact(orig.take(k));
            proof {
                assert(orig.take(k + 1).drop_last() =~= orig.take(k));
                assert(orig.take(k + 1).last() == orig[k]);
                assert(self@.templates[i as int] == orig[k]);
            }
            let mut j: usize = 0;
            let mut dup = false;
            while j < i
                invariant
                    j <= i,
                    0 <= k < orig.len(),
                    i < self.templates@.len(),
                    self@.templates[i as int] == orig[k],
                    self@.templates == kept + orig.skip(k),
                    i == kept.len(),
                    dup == exists|m: int| 0 <= m < j && has_key(#[trigger] kept[m], orig[k].id, orig[k].revision)
                        && kept[m].fields.len() >= orig[k].fields.len(),
                decreases i - j,
            {
                proof {
                    assert(self@.templates[j as int] == kept[j as int]);
                    assert(self@.templates[j as int] == self.templates@[j as int]@);
                    assert(self@.templates[i as int] == self.templates@[i as int]@);
                }
                if self.templates[j].id == self.templates[i].id
                    && self.templates[j].revision == self.templates[i].revision
                    && self.templates[j].fields.len() >= self.templates[i].fields.len()
                {
                    dup = true;
                }
                j = j + 1;
            }
            if dup {
                let ghost before = self@.templates;
                let _gone = self.templates.remove(i);
                proof {
                    assert(self@.templates =~= before.remove(i as int));
                    assert(before.remove(i as int) =~= kept + orig.skip(k + 1));
                }
            } else {
                proof {
                    assert(self@.templates =~= kept.push(orig[k]) + orig.skip(k + 1));
                }
                i = i + 1;
            }
            proof { k = k + 1; }
        }
        proof {
            assert(orig.take(k) =~= orig);
            assert(orig.skip(k) =~= Seq::<TemplateView>::empty());
            assert(self@.templates =~= spec_compact(orig));
        }
        diagnostics.templates_compacted = diagnostics.templates_compacted + 1;
    }

    pub fn lookup(&mut self, id: u16, revision: u8) -> (r: Option<&Template>)
        ensures
            (match r {
                Some(t) => Some(t@),
                None => None::<TemplateView>,
            }, final(self)@) == spec_lookup(old(self)@, id, revision),
    {
        proof { lemma_template_index(self@.templates, id, revision); }
        let index = match self.find_index(id, revision) {
            Some(i) => i,
            None => return None,
        };
        self.last_key = Some((id, revision));
        proof { assert(self@.templates[index as int] == self.templates@[index as int]@); }
        Some(&self.templates[index])
    }

    /// The template held under the key of the last successful lookup, when
    /// asked for by that key.
    pub fn reuse_cached_template(&self, id: u16, revision: u8) -> (r: Option<&Template>)
        ensures
            match r {
                Some(t) => Some(t@),
                None => None::<TemplateView>,
            } == spec_cached(self@, id, revision),
    {
        match self.last_key {
            Some((cid, crev)) => {
                if cid != id || crev != revision {
                    return None;
                }
            },
            None => return None,
        }
        proof { lemma_template_index(self@.templates, id, revision); }
        match self.find_index(id, revision) {
            Some(i) => {
                proof { assert(self@.templates[i as int] == self.templates@[i as int]@); }
                Some(&self.templates[i])
            },
            None => None,
        }
    }

    pub fn len(&self) -> (n: usize)
        ensures
            n == self@.templates.len(),
    {
        self.templates.len()
    }
}

impl Default for TemplateBank {
    fn default() -> (b: Self)
        ensures
            b@.templates == Seq::<TemplateView>::empty(),
            b@.last_key is None,
    {
        TemplateBank::new()
    }
}

// ---------------------------------------------------------------------
// Laws of the bank
// ---------------------------------------------------------------------

/// An index in range that holds the key, with no earlier one holding it,
/// is the index a search finds.
pub proof fn lemma_template_index_first(s: Seq<TemplateView>, id: u16, revision: u8, i: int)
    requires
        0 <= i < s.len(),
        has_key(s[i], id, revision),
        forall|j: int| 0 <= j < i ==> !has_key(#[trigger] s[j], id, revision),
    ensures
        template_index(s, id, revision) == Some(i),
    decreases i,
{
    if i > 0 {
        assert(!has_key(s[0], id, revision));
        assert forall|j: int| 0 <= j < i - 1 implies !has_key(#[trigger] s.drop_first()[j], id, revision) by {
            assert(s.drop_first()[j] == s[j + 1]);
        }
        lemma_template_index_first(s.drop_first(), id, revision, i - 1);
    }
}

/// Whether some template carries the key.
pub open spec fn holds_key(s: Seq<TemplateView>, id: u16, revision: u8) -> bool {
    exists|j: int| 0 <= j < s.len() && has_key(#[trigger] s[j], id, revision)
}

/// A search finds a template exactly when some template carries the key.
pub proof fn lemma_template_index_holds(s: Seq<TemplateView>, id: u16, revision: u8)
    ensures
        template_index(s, id, revision) is Some <==> holds_key(s, id, revision),
{
    lemma_template_index(s, id, revision);
    if template_index(s, id, revision) is Some {
        let i = template_index(s, id, revision)->0;
        assert(has_key(s[i], id, revision));
    }
}

/// Installing a template and then looking up its key yields that very
/// template, and records its key as the last one looked up.
pub proof fn law_install_then_lookup(bank: BankView, payload: Seq<u8>, diag: DiagnosticsView)
    requires
        spec_parse_template(payload) is Ok,
    ensures
        ({
            let t = spec_parse_template(payload)->Ok_0;
            let after = spec_install_payload(bank, payload, diag);
            &&& after.0 is Ok
            &&& spec_lookup(after.1, t.id, t.revision).0 == Some(t)
            &&& spec_lookup(after.1, t.id, t.revision).1.last_key == Some((t.id, t.revision))
        }),
{
    let t = spec_parse_template(payload)->Ok_0;
    let s = bank.templates;
    lemma_template_index(s, t.id, t.revision);
    match template_index(s, t.id, t.revision) {
        Some(i) => {
            let s2 = s.update(i, t);
            assert forall|j: int| 0 <= j < i implies !has_key(#[trigger] s2[j], t.id, t.revision) by {
                assert(s2[j] == s[j]);
            }
            lemma_template_index_first(s2, t.id, t.revision, i);
        },
        None => {
            let s2 = s.push(t);
            assert forall|j: int| 0 <= j < s.len() implies !has_key(#[trigger] s2[j], t.id, t.revision) by {
                assert(s2[j] == s[j]);
            }
            lemma_template_index_first(s2, t.id, t.revision, s.len() as int);
        },
    }
}

/// Compaction drops only duplicates: every key held before is held after.
pub proof fn law_compact_keeps_keys(s: Seq<TemplateView>, id: u16, revision: u8)
    requires
        holds_key(s, id, revision),
    ensures
        holds_key(spec_compact(s), id, revision),
    decreases s.len(),
{
    let prefix = s.drop_last();
    let kept = spec_compact(prefix);
    if holds_key(prefix, id, revision) {
        law_compact_keeps_keys(prefix, id, revision);
        let j = choose|j: int| 0 <= j < kept.len() && has_key(#[trigger] kept[j], id, revision);
        if !dominated(kept, s.last()) {
            assert(kept.push(s.last())[j] == kept[j]);
        }
    } else {
        let j = choose|j: int| 0 <= j < s.len() && has_key(#[trigger] s[j], id, revision);
        if j < s.len() - 1 {
            assert(prefix[j] == s[j]);
        }
        assert(has_key(s.last(), id, revision));
        if dominated(kept, s.last()) {
            let m = choose|m: int| 0 <= m < kept.len() && has_key(#[trigger] kept[m], s.last().id, s.last().revision)
                && kept[m].fields.len() >= s.last().fields.len();
            assert(has_key(kept[m], id, revision));
        } else {
            assert(kept.push(s.last())[kept.len() as int] == s.last());
        }
    }
}

/// A template that a reading would take from the cache before a
/// compaction is still found there after it.
pub proof fn law_cache_survives_compaction(bank: BankView, id: u16, revision: u8)
    requires
        spec_cached(bank, id, revision) is Some,
    ensures
        spec_cached(BankView { templates: spec_compact(bank.templates), ..bank }, id, revision) is Some,
{
    lemma_template_index_holds(bank.templates, id, revision);
    law_compact_keeps_keys(bank.templates, id, revision);
    lemma_template_index_holds(spec_compact(bank.templates), id, revision);
}

/// After a delete, no template carries the deleted key.
pub proof fn law_delete_removes_key(s: Seq<TemplateView>, id: u16, revision: u8)
    ensures
        !holds_key(spec_remove_key(s, id, revision), id, revision),
    decreases s.len(),
{
    if s.len() > 0 {
        law_delete_removes_key(s.drop_last(), id, revision);
        let rest = spec_remove_key(s.drop_last(), id, revision);
        if !has_key(s.last(), id, revision) {
            assert forall|j: int| 0 <= j < rest.len() + 1 implies !has_key(#[trigger] rest.push(s.last())[j], id, revision) by {
                if j < rest.len() {
                    assert(rest.push(s.last())[j] == rest[j]);
                }
            }
        }
    }
}


/// No two templates carry the same id and revision.
pub open spec fn keys_unique(s: Seq<TemplateView>) -> bool {
    forall|i: int, j: int| 0 <= i < j < s.len() ==> !has_key(#[trigger] s[j], #[trigger] s[i].id, s[i].revision)
}

proof fn lemma_install_unique(s: Seq<TemplateView>, t: TemplateView)
    requires
        keys_unique(s),
    ensures
        keys_unique(spec_install(s, t)),
{
    lemma_template_index(s, t.id, t.revision);
    let r = spec_install(s, t);
    match template_index(s, t.id, t.revision) {
        Some(k) => {
            assert forall|i: int, j: int| 0 <= i < j < r.len() implies !has_key(#[trigger] r[j], #[trigger] r[i].id, r[i].revision) by {
                assert(r[i].id == s[i].id && r[i].revision == s[i].revision);
                assert(r[j].id == s[j].id && r[j].revision == s[j].revision);
                assert(!has_key(s[j], s[i].id, s[i].revision));
            }
        },
        None => {
            assert forall|i: int, j: int| 0 <= i < j < r.len() implies !has_key(#[trigger] r[j], #[trigger] r[i].id, r[i].revision) by {
                assert(r[i] == s[i]);
                if j < s.len() {
                    assert(r[j] == s[j]);
                    assert(!has_key(s[j], s[i].id, s[i].revision));
                } else {
                    assert(r[j] == t);
                    assert(!has_key(s[i], t.id, t.revision));
                }
            }
        },
    }
}

/// Each key carried in `r` is carried in `s`.
pub open spec fn keys_within(r: Seq<TemplateView>, s: Seq<TemplateView>) -> bool {
    forall|k: int| 0 <= k < r.len() ==> holds_key(s, #[trigger] r[k].id, r[k].revision)
}

proof fn lemma_holds_key_grows(s: Seq<TemplateView>, id: u16, revision: u8)
    requires
        s.len() > 0,
        holds_key(s.drop_last(), id, revision),
    ensures
        holds_key(s, id, revision),
{
    let j = choose|j: int| 0 <= j < s.drop_last().len() && has_key(#[trigger] s.drop_last()[j], id, revision);
    assert(s.drop_last()[j] == s[j]);
}

proof fn lemma_push_keys_unique(rest: Seq<TemplateView>, s: Seq<TemplateView>)
    requires
        s.len() > 0,
        keys_unique(s),
        keys_unique(rest),
        keys_within(rest, s.drop_last()),
    ensures
        keys_unique(rest.push(s.last())),
        keys_within(rest.push(s.last()), s),
{
    let r = rest.push(s.last());
    let n = s.len() - 1;
    assert forall|i: int, j: int| 0 <= i < j < r.len() implies !has_key(#[trigger] r[j], #[trigger] r[i].id, r[i].revision) by {
        assert(r[i] == rest[i]);
        if j < rest.len() {
            assert(r[j] == rest[j]);
        } else {
            assert(holds_key(s.drop_last(), rest[i].id, rest[i].revision));
            let m = choose|m: int| 0 <= m < s.drop_last().len() && has_key(#[trigger] s.drop_last()[m], rest[i].id, rest[i].revision);
            assert(s.drop_last()[m] == s[m]);
            assert(r[j] == s[n]);
            assert(!has_key(s[n], s[m].id, s[m].revision));
        }
    }
    assert forall|k: int| 0 <= k < r.len() implies holds_key(s, #[trigger] r[k].id, r[k].revision) by {
        if k < rest.len() {
            assert(r[k] == rest[k]);
            assert(holds_key(s.drop_last(), rest[k].id, rest[k].revision));
            lemma_holds_key_grows(s, rest[k].id, rest[k].revision);
        } else {
            assert(r[k] == s[n]);
            assert(has_key(s[n], s[n].id, s[n].revision));
        }
    }
}

proof fn lemma_keys_within_grows(rest: Seq<TemplateView>, s: Seq<TemplateView>)
    requires
        s.len() > 0,
        keys_within(rest, s.drop_last()),
    ensures
        keys_within(rest, s),
{
    assert forall|k: int| 0 <= k < rest.len() implies holds_key(s, #[trigger] rest[k].id, rest[k].revision) by {
        lemma_holds_key_grows(s, rest[k].id, rest[k].revision);
    }
}

proof fn lemma_compact_unique(s: Seq<TemplateView>)
    requires
        keys_unique(s),
    ensures
        keys_unique(spec_compact(s)),
        keys_within(spec_compact(s), s),
    decreases s.len(),
{
    if s.len() > 0 {
        assert(keys_unique(s.drop_last()));
        lemma_compact_unique(s.drop_last());
        let kept = spec_compact(s.drop_last());
        if dominated(kept, s.last()) {
            lemma_keys_within_grows(kept, s);
        } else {
            lemma_push_keys_unique(kept, s);
        }
    }
}

proof fn lemma_remove_unique(s: Seq<TemplateView>, id: u16, revision: u8)
    requires
        keys_unique(s),
    ensures
        keys_unique(spec_remove_key(s, id, revision)),
        keys_within(spec_remove_key(s, id, revision), s),
    decreases s.len(),
{
    if s.len() > 0 {
        assert(keys_unique(s.drop_last()));
        lemma_remove_unique(s.drop_last(), id, revision);
        let rest = spec_remove_key(s.drop_last(), id, revision);
        if has_key(s.last(), id, revision) {
            lemma_keys_within_grows(rest, s);
        } else {
            lemma_push_keys_unique(rest, s);
        }
    }
}

/// Every change a control or install payload makes to the bank keeps the
/// keys of its templates distinct: an install replaces the template that
/// has its key, and compaction and deletion only drop templates.
pub proof fn law_bank_keys_stay_unique(bank: BankView, d: Seq<u8>, diag: DiagnosticsView)
    requires
        keys_unique(bank.templates),
    ensures
        keys_unique(spec_apply_control(bank, d, diag).1.templates),
        keys_unique(spec_install_payload(bank, d, diag).1.templates),
{
    if spec_parse_template(d) is Ok {
        lemma_install_unique(bank.templates, spec_parse_template(d)->Ok_0);
    }
    if d.len() > 1 && spec_parse_template(d.subrange(1, d.len() as int)) is Ok {
        lemma_install_unique(bank.templates, spec_parse_template(d.subrange(1, d.len() as int))->Ok_0);
    }
    lemma_compact_unique(bank.templates);
    let (r, p) = spec_read_u16(d, 1);
    if r is Ok {
        lemma_remove_unique(bank.templates, r->Ok_0, spec_read_u8(d, p).0->Ok_0);
    }
}


/// A field is one to eight bytes wide.
pub open spec fn width_ok(f: FieldSpec) -> bool {
    1 <= f.width <= 8
}

proof fn lemma_fields_from_bounded(d: Seq<u8>, p: int, n: nat, acc: Seq<FieldSpec>)
    requires
        forall|j: int| 0 <= j < acc.len() ==> width_ok(#[trigger] acc[j]),
    ensures
        spec_fields_from(d, p, n, acc) matches Ok(v) ==> v.len() == acc.len() + n
            && forall|j: int| 0 <= j < v.len() ==> width_ok(#[trigger] v[j]),
    decreases n,
{
    if n > 0 {
        let (r, q) = spec_field_at(d, p);
        if r is Ok {
            assert(forall|x: u8| #[trigger] (x & 0x07) <= 7) by (bit_vector);
            let acc2 = acc.push(r->Ok_0);
            assert forall|j: int| 0 <= j < acc2.len() implies width_ok(#[trigger] acc2[j]) by {
                if j < acc.len() { assert(acc2[j] == acc[j]); }
            }
            lemma_fields_from_bounded(d, q, (n - 1) as nat, acc2);
        }
    }
}

/// A parsed template has at most 64 fields, each one to eight bytes wide.
pub proof fn law_template_fields_bounded(d: Seq<u8>)
    ensures
        spec_parse_template(d) matches Ok(t) ==> t.fields.len() <= 64
            && forall|j: int| 0 <= j < t.fields.len() ==> width_ok(#[trigger] t.fields[j]),
{
    if spec_parse_tlvs(d) is Ok {
        let tlvs = spec_parse_tlvs(d)->Ok_0;
        if spec_find_tlv(tlvs, TlvClass::Meter, 0x02) is Some {
            let fl = spec_find_tlv(tlvs, TlvClass::Meter, 0x02)->0.value;
            let (r, p) = spec_read_u8(fl, 0);
            if r is Ok {
                lemma_fields_from_bounded(fl, p, r->Ok_0 as nat, Seq::empty());
            }
        }
    }
}


/// Every field of a template is one to eight bytes wide.
pub open spec fn template_widths_ok(t: TemplateView) -> bool {
    forall|j: int| 0 <= j < t.fields.len() ==> width_ok(#[trigger] t.fields[j])
}

/// Every template of a bank has only fields one to eight bytes wide.
pub open spec fn bank_widths_ok(s: Seq<TemplateView>) -> bool {
    forall|i: int| 0 <= i < s.len() ==> template_widths_ok(#[trigger] s[i])
}

proof fn lemma_push_widths_ok(s: Seq<TemplateView>, t: TemplateView)
    requires
        bank_widths_ok(s),
        template_widths_ok(t),
    ensures
        bank_widths_ok(s.push(t)),
{
    assert forall|i: int| 0 <= i < s.push(t).len() implies template_widths_ok(#[trigger] s.push(t)[i]) by {
        if i < s.len() { assert(s.push(t)[i] == s[i]); }
    }
}

proof fn lemma_compact_widths_ok(s: Seq<TemplateView>)
    requires
        bank_widths_ok(s),
    ensures
        bank_widths_ok(spec_compact(s)),
    decreases s.len(),
{
    if s.len() > 0 {
        assert(bank_widths_ok(s.drop_last()));
        lemma_compact_widths_ok(s.drop_last());
        assert(template_widths_ok(s[s.len() - 1]));
        lemma_push_widths_ok(spec_compact(s.drop_last()), s.last());
    }
}

proof fn lemma_remove_widths_ok(s: Seq<TemplateView>, id: u16, revision: u8)
    requires
        bank_widths_ok(s),
    ensures
        bank_widths_ok(spec_remove_key(s, id, revision)),
    decreases s.len(),
{
    if s.len() > 0 {
        assert(bank_widths_ok(s.drop_last()));
        lemma_remove_widths_ok(s.drop_last(), id, revision);
        assert(template_widths_ok(s[s.len() - 1]));
        lemma_push_widths_ok(spec_remove_key(s.drop_last(), id, revision), s.last());
    }
}

proof fn lemma_install_widths_ok(s: Seq<TemplateView>, d: Seq<u8>)
    requires
        bank_widths_ok(s),
    ensures
        spec_parse_template(d) matches Ok(t) ==> bank_widths_ok(spec_install(s, t)),
{
    law_template_fields_bounded(d);
    if spec_parse_template(d) is Ok {
        let t = spec_parse_template(d)->Ok_0;
        lemma_template_index(s, t.id, t.revision);
        match template_index(s, t.id, t.revision) {
            Some(k) => {
                assert forall|i: int| 0 <= i < s.update(k, t).len() implies template_widths_ok(#[trigger] s.update(k, t)[i]) by {
                    if i != k { assert(s.update(k, t)[i] == s[i]); }
                }
            },
            None => lemma_push_widths_ok(s, t),
        }
    }
}

/// Every change a control or install payload makes to the bank keeps all
/// of its fields one to eight bytes wide.
pub proof fn law_bank_widths_stay_ok(bank: BankView, d: Seq<u8>, diag: DiagnosticsView)
    requires
        bank_widths_ok(bank.templates),
    ensures
        bank_widths_ok(spec_apply_control(bank, d, diag).1.templates),
        bank_widths_ok(spec_install_payload(bank, d, diag).1.templates),
{
    lemma_install_widths_ok(bank.templates, d);
    lemma_install_widths_ok(bank.templates, d.subrange(1, d.len() as int));
    lemma_compact_widths_ok(bank.templates);
    let (r, p) = spec_read_u16(d, 1);
    if r is Ok {
        lemma_remove_widths_ok(bank.templates, r->Ok_0, spec_read_u8(d, p).0->Ok_0);
    }
}


/// Installing a payload into a bank whose keys are distinct: when the
/// payload parses, the install succeeds, the keys stay distinct, a lookup
/// of the new key finds the new template, the bank grows by one exactly
/// when the key was new, templates with other keys stay in place, and one
/// install is counted; when it does not parse, the error comes back and
/// nothing changes.
pub proof fn law_install_payload(bank: BankView, payload: Seq<u8>, diag: DiagnosticsView)
    requires
        keys_unique(bank.templates),
    ensures
        ({
            let (r, b2, d2) = spec_install_payload(bank, payload, diag);
            match spec_parse_template(payload) {
                Ok(t) => {
                    &&& r is Ok
                    &&& keys_unique(b2.templates)
                    &&& spec_lookup(b2, t.id, t.revision).0 == Some(t)
                    &&& b2.templates.len() == bank.templates.len()
                        + (if holds_key(bank.templates, t.id, t.revision) { 0int } else { 1int })
                    &&& forall|j: int| 0 <= j < bank.templates.len() && !has_key(bank.templates[j], t.id, t.revision)
                        ==> #[trigger] b2.templates[j] == bank.templates[j]
                    &&& b2.last_key == bank.last_key
                    &&& d2 == (DiagnosticsView { templates_installed: diag.templates_installed + 1, ..diag })
                },
                Err(e) => r == Err::<(), GridError>(e) && b2 == bank && d2 == diag,
            }
        }),
{
    if spec_parse_template(payload) is Ok {
        let t = spec_parse_template(payload)->Ok_0;
        lemma_install_unique(bank.templates, t);
        law_install_then_lookup(bank, payload, diag);
        lemma_template_index(bank.templates, t.id, t.revision);
        lemma_template_index_holds(bank.templates, t.id, t.revision);
    }
}


/// A field description parses, whenever its four bytes are there, to the
/// field the catalog names: its kind by the id byte (0x01 voltage, 0x02
/// current, 0x03 active power, 0x04 reactive power, 0x05 frequency, 0x06
/// energy import, 0x07 energy export, 0x08 temperature, 0x09 tamper
/// flags, 0x0a outage cause, any other id a custom kind carrying it), its
/// width one more than the low three bits of the next byte and its codec
/// by the three bits above them (0 unsigned, 1 signed, 2 zig-zag, 3 fixed
/// point, 4 bitmap, 5 to 7 packed BCD), then the scale byte and the
/// nullable bit.
pub proof fn law_field_description(d: Seq<u8>, p: int)
    requires
        0 <= p,
        p + 4 <= d.len(),
    ensures
        spec_field_at(d, p).1 == p + 4,
        spec_field_at(d, p).0 matches Ok(f)
            && (d[p] == 0x01 ==> f.kind == FieldKind::Voltage)
            && (d[p] == 0x02 ==> f.kind == FieldKind::Current)
            && (d[p] == 0x03 ==> f.kind == FieldKind::ActivePower)
            && (d[p] == 0x04 ==> f.kind == FieldKind::ReactivePower)
            && (d[p] == 0x05 ==> f.kind == FieldKind::Frequency)
            && (d[p] == 0x06 ==> f.kind == FieldKind::EnergyImport)
            && (d[p] == 0x07 ==> f.kind == FieldKind::EnergyExport)
            && (d[p] == 0x08 ==> f.kind == FieldKind::Temperature)
            && (d[p] == 0x09 ==> f.kind == FieldKind::TamperFlags)
            && (d[p] == 0x0a ==> f.kind == FieldKind::OutageCause)
            && ((d[p] == 0 || d[p] > 0x0a) ==> f.kind == FieldKind::Custom(d[p]))
            && f.width == d[p + 1] % 8 + 1
            && ((d[p + 1] / 8) % 8 == 0 ==> f.codec == FieldCodec::Unsigned)
            && ((d[p + 1] / 8) % 8 == 1 ==> f.codec == FieldCodec::Signed)
            && ((d[p + 1] / 8) % 8 == 2 ==> f.codec == FieldCodec::ZigZag)
            && ((d[p + 1] / 8) % 8 == 3 ==> f.codec == FieldCodec::FixedPoint)
            && ((d[p + 1] / 8) % 8 == 4 ==> f.codec == FieldCodec::Bitmap)
            && ((d[p + 1] / 8) % 8 >= 5 ==> f.codec == FieldCodec::PackedBcd)
            && f.scale == d[p + 2] as i8
            && f.nullable == (d[p + 3] % 2 == 1),
{
    let raw = d[p + 1];
    let nb = d[p + 3];
    assert((raw & 0x07) as int == raw % 8 && ((raw >> 3) & 0x07) as int == (raw / 8) % 8
        && ((nb & 1) != 0) == (nb % 2 == 1)) by (bit_vector);
}


/// After a compaction, of two templates with the same key the later one
/// has strictly more fields: a template is dropped whenever one kept
/// before it has its key and at least as many fields.
pub proof fn law_compact_drops_dominated(s: Seq<TemplateView>)
    ensures
        forall|i: int, j: int| 0 <= i < j < spec_compact(s).len()
            && has_key(#[trigger] spec_compact(s)[j], #[trigger] spec_compact(s)[i].id, spec_compact(s)[i].revision)
            ==> spec_compact(s)[i].fields.len() < spec_compact(s)[j].fields.len(),
    decreases s.len(),
{
    if s.len() > 0 {
        law_compact_drops_dominated(s.drop_last());
        let kept = spec_compact(s.drop_last());
        let r = spec_compact(s);
        if !dominated(kept, s.last()) {
            assert forall|i: int, j: int| 0 <= i < j < r.len() && has_key(#[trigger] r[j], #[trigger] r[i].id, r[i].revision)
                implies r[i].fields.len() < r[j].fields.len() by {
                assert(r[i] == kept[i]);
                if j < kept.len() {
                    assert(r[j] == kept[j]);
                } else {
                    assert(r[j] == s.last());
                    if kept[i].fields.len() >= s.last().fields.len() {
                        assert(has_key(kept[i], s.last().id, s.last().revision));
                        assert(dominated(kept, s.last()));
                    }
                }
            }
        }
    }
}

} // verus!
