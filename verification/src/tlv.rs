use vstd::prelude::*;
use crate::cursor::{ByteCursor, lemma_var_u32_bounds, spec_read_u8, spec_read_var_u32, spec_remaining, spec_take};
use crate::error::GridError;

verus! {

#[derive(Debug, Clone, Copy, PartialEq, Eq, Structural)]
pub enum TlvClass {
    Core,
    Meter,
    Routing,
    Vendor,
}

/// The class named by the two high bits of a raw tag.
pub open spec fn class_of(raw_tag: u8) -> TlvClass {
    if raw_tag / 64 == 0 {
        TlvClass::Core
    } else if raw_tag / 64 == 1 {
        TlvClass::Meter
    } else if raw_tag / 64 == 2 {
        TlvClass::Routing
    } else {
        TlvClass::Vendor
    }
}

/// The tag number: the low six bits of the raw tag.
pub open spec fn spec_tag_id(tag: u8) -> u8 {
    tag & 0x3f
}

#[derive(Debug, Clone)]
pub struct Tlv<'a> {
    pub class: TlvClass,
    pub tag: u8,
    pub value: &'a [u8],
}

pub struct TlvView {
    pub class: TlvClass,
    pub tag: u8,
    pub value: Seq<u8>,
}

impl<'a> View for Tlv<'a> {
    type V = TlvView;

    open spec fn view(&self) -> TlvView {
        TlvView { class: self.class, tag: self.tag, value: self.value@ }
    }
}

impl<'a> Tlv<'a> {
    pub fn tag_id(&self) -> (t: u8)
        ensures
            t == spec_tag_id(self.tag),
    {
        self.tag & 0x3f
    }
}

/// Records taken by their views.
pub open spec fn tlvs_view<'a>(v: Seq<Tlv<'a>>) -> Seq<TlvView> {
    v.map_values(|t: Tlv<'a>| t@)
}

/// One record at `p`: the raw tag, then its length (a varint when bit
/// 0x20 of the tag is set, one byte otherwise), then that many value bytes.
pub open spec fn spec_tlv_at(d: Seq<u8>, p: int) -> (Result<TlvView, GridError>, int) {
    let (r, p1) = spec_read_u8(d, p);
    match r {
        Err(e) => (Err(e), p1),
        Ok(raw_tag) => {
            let (rl, p2) = if raw_tag & 0x20 != 0 {
                let (r, q) = spec_read_var_u32(d, p1);
                match r {
                    Ok(v) => (Ok(v as int), q),
                    Err(e) => (Err(e), q),
                }
            } else {
                let (r, q) = spec_read_u8(d, p1);
                match r {
                    Ok(v) => (Ok(v as int), q),
                    Err(e) => (Err(e), q),
                }
            };
            match rl {
                Err(e) => (Err(e), p2),
                Ok(len) => if len > spec_remaining(d, p2) {
                    (Err(GridError::TlvMalformed("declared length exceeds remaining bytes")), p2)
                } else {
                    (Ok(TlvView { class: class_of(raw_tag), tag: raw_tag, value: d.subrange(p2, p2 + len) }), p2 + len)
                },
            }
        },
    }
}

/// A record moves the position forward and stays inside the data.
pub proof fn lemma_tlv_progress(d: Seq<u8>, p: int)
    requires
        0 <= p < d.len(),
    ensures
        spec_tlv_at(d, p).0 is Ok ==> p < spec_tlv_at(d, p).1 <= d.len(),
{
    lemma_var_u32_bounds(d, p + 1, 0, 0);
}

/// The records from `p` to the end of the data after `acc`; more than 256
/// records are refused.
pub open spec fn spec_tlvs_from(d: Seq<u8>, p: int, acc: Seq<TlvView>) -> Result<Seq<TlvView>, GridError>
    decreases d.len() - p,
{
    if p < 0 || p >= d.len() {
        Ok(acc)
    } else {
        proof { lemma_tlv_progress(d, p); }
        let (r, q) = spec_tlv_at(d, p);
        match r {
            Err(e) => Err(e),
            Ok(t) => {
                let acc2 = acc.push(t);
                if acc2.len() > 256 {
                    Err(GridError::TlvMalformed("too many tlv records"))
                } else {
                    spec_tlvs_from(d, q, acc2)
                }
            },
        }
    }
}

/// The records of a whole TLV sequence.
pub open spec fn spec_parse_tlvs(d: Seq<u8>) -> Result<Seq<TlvView>, GridError> {
    spec_tlvs_from(d, 0, Seq::empty())
}

fn read_tlv<'a>(cursor: &mut ByteCursor<'a>) -> (r: Result<Tlv<'a>, GridError>)
    ensures
        final(cursor).data() == old(cursor).data(),
        final(cursor).pos() == spec_tlv_at(old(cursor).data(), old(cursor).pos()).1,
        (match r {
            Ok(t) => spec_tlv_at(old(cursor).data(), old(cursor).pos()).0 == Ok::<TlvView, GridError>(t@),
            Err(e) => spec_tlv_at(old(cursor).data(), old(cursor).pos()).0 == Err::<TlvView, GridError>(e),
        }),
{
    let raw_tag = cursor.read_u8()?;
    assert(raw_tag >> 6 == raw_tag / 64) by (bit_vector);
    let class = match raw_tag >> 6 {
        0 => TlvClass::Core,
        1 => TlvClass::Meter,
        2 => TlvClass::Routing,
        _ => TlvClass::Vendor,
    };
    let len = if raw_tag & 0x20 != 0 {
        cursor.read_var_u32()? as usize
    } else {
        cursor.read_u8()? as usize
    };
    if len > cursor.remaining() {
        return Err(GridError::TlvMalformed("declared length exceeds remaining bytes"));
    }
    let value = cursor.take(len)?;
    Ok(Tlv { class, tag: raw_tag, value })
}

/// Parses a sequence of TLV records.
pub fn parse_tlvs(data: &[u8]) -> (r: Result<Vec<Tlv<'_>>, GridError>)
    ensures
        (match r {
            Ok(v) => spec_parse_tlvs(data@) == Ok::<Seq<TlvView>, GridError>(tlvs_view(v@)),
            Err(e) => spec_parse_tlvs(data@) == Err::<Seq<TlvView>, GridError>(e),
        }),
{
    let mut cursor = ByteCursor::new(data);
    let mut items: Vec<Tlv<'_>> = Vec::new();
    proof { assert(tlvs_view(items@) =~= Seq::<TlvView>::empty()); }
    while !cursor.is_empty()
        invariant
            cursor.data() == data@,
            0 <= cursor.pos() <= data@.len(),
            spec_parse_tlvs(data@) == spec_tlvs_from(data@, cursor.pos(), tlvs_view(items@)),
        decreases data@.len() - cursor.pos(),
    {
        let ghost p = cursor.pos();
        let ghost acc = tlvs_view(items@);
        proof { lemma_tlv_progress(data@, p); }
        let item = read_tlv(&mut cursor)?;
        items.push(item);
        proof { assert(tlvs_view(items@) =~= acc.push(item@)); }
        if items.len() > 256 {
            return Err(GridError::TlvMalformed("too many tlv records"));
        }
    }
    Ok(items)
}

/// The first record of the given class and tag number.
pub open spec fn spec_find_tlv(s: Seq<TlvView>, class: TlvClass, tag_id: u8) -> Option<TlvView>
    decreases s.len(),
{
    if s.len() == 0 {
        None
    } else if s[0].class == class && spec_tag_id(s[0].tag) == tag_id {
        Some(s[0])
    } else {
        spec_find_tlv(s.drop_first(), class, tag_id)
    }
}

/// The first record of the given class and tag number.
pub fn find_tlv<'a>(tlvs: &'a [Tlv<'a>], class: TlvClass, tag_id: u8) -> (r: Option<&'a Tlv<'a>>)
    ensures
        (match r {
            Some(t) => spec_find_tlv(tlvs_view(tlvs@), class, tag_id) == Some(t@),
            None => spec_find_tlv(tlvs_view(tlvs@), class, tag_id) is None,
        }),
{
    let mut i: usize = 0;
    proof { assert(tlvs_view(tlvs@).skip(0) =~= tlvs_view(tlvs@)); }
    while i < tlvs.len()
        invariant
            i <= tlvs@.len(),
            spec_find_tlv(tlvs_view(tlvs@), class, tag_id) == spec_find_tlv(tlvs_view(tlvs@).skip(i as int), class, tag_id),
        decreases tlvs@.len() - i,
    {
        let item = &tlvs[i];
        proof {
            let s = tlvs_view(tlvs@).skip(i as int);
            assert(s[0] == item@);
            assert(s.drop_first() =~= tlvs_view(tlvs@).skip(i + 1));
        }
        if item.class == class && item.tag_id() == tag_id {
            return Some(item);
        }
        i = i + 1;
    }
    None
}


proof fn lemma_tlvs_from_bounded(d: Seq<u8>, p: int, acc: Seq<TlvView>)
    requires
        acc.len() <= 256,
    ensures
        spec_tlvs_from(d, p, acc) matches Ok(v) ==> v.len() <= 256,
    decreases d.len() - p,
{
    if 0 <= p < d.len() {
        lemma_tlv_progress(d, p);
        let (r, q) = spec_tlv_at(d, p);
        if r is Ok && acc.len() + 1 <= 256 {
            lemma_tlvs_from_bounded(d, q, acc.push(r->Ok_0));
        }
    }
}

/// A TLV sequence that parses holds at most 256 records.
pub proof fn law_tlv_records_bounded(d: Seq<u8>)
    ensures
        spec_parse_tlvs(d) matches Ok(v) ==> v.len() <= 256,
{
    lemma_tlvs_from_bounded(d, 0, Seq::empty());
}


/// A record with a one-byte length: its class is given by the top two
/// bits of the tag (0 core, 1 meter, 2 routing, 3 vendor), its tag number
/// by the low six, and its value is the next `len` bytes.
pub proof fn law_tlv_record(d: Seq<u8>, p: int)
    requires
        0 <= p,
        p + 2 <= d.len(),
        (d[p] / 32) % 2 == 0,
        p + 2 + d[p + 1] <= d.len(),
    ensures
        spec_tlv_at(d, p).1 == p + 2 + d[p + 1],
        spec_tlv_at(d, p).0 matches Ok(t) && t.tag == d[p] && t.value == d.subrange(p + 2, p + 2 + d[p + 1])
            && (d[p] < 64 ==> t.class == TlvClass::Core)
            && (64 <= d[p] < 128 ==> t.class == TlvClass::Meter)
            && (128 <= d[p] < 192 ==> t.class == TlvClass::Routing)
            && (192 <= d[p] ==> t.class == TlvClass::Vendor)
            && spec_tag_id(t.tag) == d[p] % 64,
{
    let t = d[p];
    assert(((t & 0x20) != 0) == ((t / 32) % 2 == 1) && (t & 0x3f) == t % 64) by (bit_vector);
}

} // verus!
