use vstd::prelude::*;
use crate::cursor::{ByteCursor, spec_read_u8, spec_read_u16, spec_remaining};
use crate::error::GridError;
use crate::model::{Diagnostics, DiagnosticsView};

verus! {

#[derive(Debug, Clone)]
pub struct RouteEvent {
    pub feeder_id: u16,
    pub collector_id: u16,
    pub hops: Vec<u16>,
    pub quality: u8,
}

pub struct RouteEventView {
    pub feeder_id: u16,
    pub collector_id: u16,
    pub hops: Seq<u16>,
    pub quality: u8,
}

impl View for RouteEvent {
    type V = RouteEventView;

    open spec fn view(&self) -> RouteEventView {
        RouteEventView { feeder_id: self.feeder_id, collector_id: self.collector_id, hops: self.hops@, quality: self.quality }
    }
}

/// Events taken by their views.
pub open spec fn events_view(v: Seq<RouteEvent>) -> Seq<RouteEventView> {
    v.map_values(|e: RouteEvent| e@)
}

#[derive(Debug, Clone, Copy)]
struct RouteEntry {
    feeder_id: u16,
    collector_id: u16,
    parent: u16,
    quality: u8,
}

/// A route entry: the parent of a feeder/collector pair and its quality.
pub struct RouteEntryView {
    pub feeder_id: u16,
    pub collector_id: u16,
    pub parent: u16,
    pub quality: u8,
}

impl View for RouteEntry {
    type V = RouteEntryView;

    closed spec fn view(&self) -> RouteEntryView {
        RouteEntryView { feeder_id: self.feeder_id, collector_id: self.collector_id, parent: self.parent, quality: self.quality }
    }
}

/// Index of the first entry for the given feeder and collector.
pub open spec fn entry_index(s: Seq<RouteEntryView>, feeder_id: u16, collector_id: u16) -> Option<int>
    decreases s.len(),
{
    if s.len() == 0 {
        None
    } else if s[0].feeder_id == feeder_id && s[0].collector_id == collector_id {
        Some(0)
    } else {
        match entry_index(s.drop_first(), feeder_id, collector_id) {
            Some(i) => Some(i + 1),
            None => None,
        }
    }
}

/// The entry a search finds is in range and is for the pair.
pub proof fn lemma_entry_index(s: Seq<RouteEntryView>, feeder_id: u16, collector_id: u16)
    ensures
        entry_index(s, feeder_id, collector_id) matches Some(i) ==> 0 <= i < s.len()
            && s[i].feeder_id == feeder_id && s[i].collector_id == collector_id,
    decreases s.len(),
{
    if s.len() > 0 {
        lemma_entry_index(s.drop_first(), feeder_id, collector_id);
    }
}

/// Installing an entry updates the parent and quality of the first entry
/// for the same pair, or appends the entry.
pub open spec fn spec_upsert(s: Seq<RouteEntryView>, e: RouteEntryView) -> Seq<RouteEntryView> {
    match entry_index(s, e.feeder_id, e.collector_id) {
        Some(i) => s.update(i, RouteEntryView { parent: e.parent, quality: e.quality, ..s[i] }),
        None => s.push(e),
    }
}

/// One entry record: feeder, collector, parent, quality.
pub open spec fn spec_entry_at(d: Seq<u8>, p: int) -> (Result<RouteEntryView, GridError>, int) {
    let (r, p) = spec_read_u16(d, p);
    match r {
        Err(e) => (Err(e), p),
        Ok(feeder_id) => {
            let (r, p) = spec_read_u16(d, p);
            match r {
                Err(e) => (Err(e), p),
                Ok(collector_id) => {
                    let (r, p) = spec_read_u16(d, p);
                    match r {
                        Err(e) => (Err(e), p),
                        Ok(parent) => {
                            let (r, p) = spec_read_u8(d, p);
                            match r {
                                Err(e) => (Err(e), p),
                                Ok(quality) => (Ok(RouteEntryView { feeder_id, collector_id, parent, quality }), p),
                            }
                        },
                    }
                },
            }
        },
    }
}

/// `n` more entry records; the entries read before an error stay installed.
pub open spec fn spec_entries_from(s: Seq<RouteEntryView>, d: Seq<u8>, p: int, n: nat) -> (Result<(), GridError>, Seq<RouteEntryView>)
    decreases n,
{
    if n == 0 {
        (Ok(()), s)
    } else {
        let (r, q) = spec_entry_at(d, p);
        match r {
            Err(e) => (Err(e), s),
            Ok(entry) => spec_entries_from(spec_upsert(s, entry), d, q, (n - 1) as nat),
        }
    }
}

/// An install message: a count of at most 64, then that many entries.
pub open spec fn spec_install_entries(s: Seq<RouteEntryView>, d: Seq<u8>, p: int) -> (Result<(), GridError>, Seq<RouteEntryView>) {
    let (r, p) = spec_read_u8(d, p);
    match r {
        Err(e) => (Err(e), s),
        Ok(count) => if count > 64 {
            (Err(GridError::RouteMalformed("too many route entries")), s)
        } else {
            spec_entries_from(s, d, p, count as nat)
        },
    }
}

/// `n` more seed indexes: each names an entry whose parent becomes a hop;
/// indexes past the table are skipped.
pub open spec fn spec_seeds(s: Seq<RouteEntryView>, d: Seq<u8>, p: int, n: nat, acc: Seq<u16>) -> (Result<Seq<u16>, GridError>, int)
    decreases n,
{
    if n == 0 {
        (Ok(acc), p)
    } else {
        let (r, q) = spec_read_u8(d, p);
        match r {
            Err(e) => (Err(e), q),
            Ok(index) => spec_seeds(s, d, q, (n - 1) as nat, if (index as int) < s.len() { acc.push(s[index as int].parent) } else { acc }),
        }
    }
}

/// Inline hops follow, two bytes each, until `declared` hops are known or
/// fewer than two bytes remain.
pub open spec fn spec_inline_hops(d: Seq<u8>, p: int, declared: int, acc: Seq<u16>) -> Seq<u16>
    decreases d.len() - p,
{
    if acc.len() < declared && spec_remaining(d, p) >= 2 && 0 <= p {
        spec_inline_hops(d, p + 2, declared, acc.push(spec_read_u16(d, p).0->Ok_0))
    } else {
        acc
    }
}

/// The smallest of three counts.
pub open spec fn min3(a: int, b: int, c: int) -> int {
    if a <= b && a <= c { a } else if b <= c { b } else { c }
}

/// A compressed path: feeder, collector, declared hop count, quality, then
/// seed indexes (at most 32 are read) and inline hops; the event carries
/// the first hops, at most the declared count and at most 128.
pub open spec fn spec_compressed_path(s: Seq<RouteEntryView>, d: Seq<u8>, p: int) -> Result<RouteEventView, GridError> {
    let (r, p) = spec_read_u16(d, p);
    match r {
        Err(e) => Err(e),
        Ok(feeder_id) => {
            let (r, p) = spec_read_u16(d, p);
            match r {
                Err(e) => Err(e),
                Ok(collector_id) => {
                    let (r, p) = spec_read_u8(d, p);
                    match r {
                        Err(e) => Err(e),
                        Ok(declared) => {
                            let (r, p) = spec_read_u8(d, p);
                            match r {
                                Err(e) => Err(e),
                                Ok(quality) => {
                                    let (r, p) = spec_read_u8(d, p);
                                    match r {
                                        Err(e) => Err(e),
                                        Ok(seed_count) => {
                                            let n: nat = if seed_count < 32 { seed_count as nat } else { 32 };
                                            let (r, p) = spec_seeds(s, d, p, n, Seq::empty());
                                            match r {
                                                Err(e) => Err(e),
                                                Ok(seeded) => {
                                                    let all = spec_inline_hops(d, p, declared as int, seeded);
                                                    Ok(RouteEventView {
                                                        feeder_id,
                                                        collector_id,
                                                        hops: all.take(min3(declared as int, 128, all.len() as int)),
                                                        quality,
                                                    })
                                                },
                                            }
                                        },
                                    }
                                },
                            }
                        },
                    }
                },
            }
        },
    }
}

/// The entries of at least the given quality, in order.
pub open spec fn spec_trim(s: Seq<RouteEntryView>, minimum: u8) -> Seq<RouteEntryView>
    decreases s.len(),
{
    if s.len() == 0 {
        s
    } else {
        let rest = spec_trim(s.drop_last(), minimum);
        if s.last().quality >= minimum { rest.push(s.last()) } else { rest }
    }
}

/// A route message: opcode 1 installs entries, 2 decodes a compressed path
/// into one event, 3 clears the table, 4 drops entries below a quality.
pub open spec fn spec_apply_route(s: Seq<RouteEntryView>, d: Seq<u8>, diag: DiagnosticsView) -> (Result<Seq<RouteEventView>, GridError>, Seq<RouteEntryView>, DiagnosticsView) {
    let (r, p) = spec_read_u8(d, 0);
    match r {
        Err(e) => (Err(e), s, diag),
        Ok(opcode) => if opcode == 0x01 {
            let (r, s2) = spec_install_entries(s, d, p);
            match r {
                Ok(_) => (Ok(Seq::empty()), s2, diag),
                Err(e) => (Err(e), s2, diag),
            }
        } else if opcode == 0x02 {
            match spec_compressed_path(s, d, p) {
                Ok(ev) => (Ok(seq![ev]), s, DiagnosticsView { route_events: diag.route_events + 1, ..diag }),
                Err(e) => (Err(e), s, diag),
            }
        } else if opcode == 0x03 {
            (Ok(Seq::empty()), Seq::empty(), diag)
        } else if opcode == 0x04 {
            let (r, _p) = spec_read_u8(d, p);
            match r {
                Err(e) => (Err(e), s, diag),
                Ok(minimum) => (Ok(Seq::empty()), spec_trim(s, minimum), diag),
            }
        } else {
            (Err(GridError::RouteMalformed("unknown route opcode")), s, diag)
        },
    }
}

#[derive(Debug, Clone)]
pub struct RouteTable {
    entries: Vec<RouteEntry>,
    scratch: Vec<u16>,
}

/// Entries taken by their views.
pub open spec fn entries_view(v: Seq<RouteEntry>) -> Seq<RouteEntryView> {
    v.map_values(|e: RouteEntry| e@)
}

impl View for RouteTable {
    type V = Seq<RouteEntryView>;

    closed spec fn view(&self) -> Seq<RouteEntryView> {
        entries_view(self.entries@)
    }
}

impl RouteTable {
    pub fn new() -> (t: Self)
        ensures
            t@ == Seq::<RouteEntryView>::empty(),
    {
        let t = RouteTable { entries: Vec::new(), scratch: Vec::new() };
        proof { assert(t@ =~= Seq::<RouteEntryView>::empty()); }
        t
    }

    pub fn apply_route_message(&mut self, payload: &[u8], diagnostics: &mut Diagnostics) -> (r: Result<Vec<RouteEvent>, GridError>)
        requires
            old(diagnostics).route_events < usize::MAX,
        ensures
            (match r {
                Ok(v) => Ok::<Seq<RouteEventView>, GridError>(events_view(v@)),
                Err(e) => Err(e),
            }, final(self)@, final(diagnostics)@) == spec_apply_route(old(self)@, payload@, old(diagnostics)@),
    {
        let mut cursor = ByteCursor::new(payload);
        let opcode = cursor.read_u8()?;
        let none: Vec<RouteEvent> = Vec::new();
        proof { assert(events_view(none@) =~= Seq::<RouteEventView>::empty()); }
        match opcode {
            0x01 => {
                self.install_entries(&mut cursor)?;
                Ok(none)
            },
            0x02 => {
                let event = self.decode_compressed_path(&mut cursor)?;
                diagnostics.route_events = diagnostics.route_events + 1;
                let mut events: Vec<RouteEvent> = Vec::new();
                events.push(event);
                proof { assert(events_view(events@) =~= seq![event@]); }
                Ok(events)
            },
            0x03 => {
                self.entries.clear();
                self.scratch.clear();
                proof { assert(self@ =~= Seq::<RouteEntryView>::empty()); }
                Ok(none)
            },
            0x04 => {
                let minimum = cursor.read_u8()?;
                self.trim_by_quality(minimum);
                Ok(none)
            },
            _ => Err(GridError::RouteMalformed("unknown route opcode")),
        }
    }

    fn find_entry(&self, feeder_id: u16, collector_id: u16) -> (r: Option<usize>)
        ensures
            match r {
                Some(i) => entry_index(self@, feeder_id, collector_id) == Some(i as int),
                None => entry_index(self@, feeder_id, collector_id) is None,
            },
    {
        let ghost s = self@;
        let mut i: usize = 0;
        proof { assert(s.skip(0) =~= s); }
        while i < self.entries.len()
            invariant
                i <= s.len(),
                s == self@,
                s.len() == self.entries@.len(),
                entry_index(s, feeder_id, collector_id) == match entry_index(s.skip(i as int), feeder_id, collector_id) {
                    Some(j) => Some(j + i),
                    None => None::<int>,
                },
            decreases s.len() - i,
        {
            proof {
                assert(s.skip(i as int)[0] == s[i as int]);
                assert(s[i as int] == self.entries@[i as int]@);
                assert(s.skip(i as int).drop_first() =~= s.skip(i + 1));
            }
            if self.entries[i].feeder_id == feeder_id && self.entries[i].collector_id == collector_id {
                return Some(i);
            }
            i = i + 1;
        }
        None
    }

    fn install_entries(&mut self, cursor: &mut ByteCursor<'_>) -> (r: Result<(), GridError>)
        ensures
            (r, final(self)@) == spec_install_entries(old(self)@, old(cursor).data(), old(cursor).pos()),
    {
        let count = cursor.read_u8()? as usize;
        if count > 64 {
            return Err(GridError::RouteMalformed("too many route entries"));
        }
        let mut k: usize = 0;
        while k < count
            invariant
                k <= count,
                spec_install_entries(old(self)@, old(cursor).data(), old(cursor).pos())
                    == spec_entries_from(self@, cursor.data(), cursor.pos(), (count - k) as nat),
            decreases count - k,
        {
            let feeder_id = cursor.read_u16_le()?;
            let collector_id = cursor.read_u16_le()?;
            let parent = cursor.read_u16_le()?;
            let quality = cursor.read_u8()?;
            let ghost before = self@;
            let ghost entry = RouteEntryView { feeder_id, collector_id, parent, quality };
            proof { lemma_entry_index(before, feeder_id, collector_id); }
            match self.find_entry(feeder_id, collector_id) {
                Some(i) => {
                    let mut existing = self.entries[i];
                    existing.parent = parent;
                    existing.quality = quality;
                    self.entries.set(i, existing);
                    proof { assert(self@ =~= spec_upsert(before, entry)); }
                },
                None => {
                    self.entries.push(RouteEntry { feeder_id, collector_id, parent, quality });
                    proof { assert(self@ =~= spec_upsert(before, entry)); }
                },
            }
            k = k + 1;
        }
        Ok(())
    }

    fn decode_compressed_path(&mut self, cursor: &mut ByteCursor<'_>) -> (r: Result<RouteEvent, GridError>)
        ensures
            final(self)@ == old(self)@,
            (match r {
                Ok(ev) => Ok::<RouteEventView, GridError>(ev@),
                Err(e) => Err(e),
            }) == spec_compressed_path(old(self)@, old(cursor).data(), old(cursor).pos()),
    {
        let ghost s = self@;
        let ghost d = old(cursor).data();
        let feeder_id = cursor.read_u16_le()?;
        let collector_id = cursor.read_u16_le()?;
        let declared_hops = cursor.read_u8()? as usize;
        let quality = cursor.read_u8()?;
        self.scratch.clear();
        let seed_count = cursor.read_u8()? as usize;
        let n = if seed_count < 32 { seed_count } else { 32 };
        let ghost p0 = cursor.pos();
        let ghost empty = self.scratch@;
        self.read_seeds(cursor, n)?;
        assert(spec_seeds(s, d, p0, n as nat, Seq::empty()) == (Ok::<Seq<u16>, GridError>(self.scratch@), cursor.pos()));
        let ghost p1 = cursor.pos();
        let ghost seeded = self.scratch@;
        // The position's contract bounds it by the data, for the loop below.
        let _at = cursor.position();
        while self.scratch.len() < declared_hops && cursor.remaining() >= 2
            invariant
                self@ == s,
                cursor.data() == d,
                0 <= cursor.pos() <= d.len(),
                spec_inline_hops(d, p1, declared_hops as int, seeded) == spec_inline_hops(d, cursor.pos(), declared_hops as int, self.scratch@),
            decreases d.len() - cursor.pos(),
        {
            let hop = cursor.read_u16_le()?;
            self.scratch.push(hop);
        }
        let count = if declared_hops < 128 { declared_hops } else { 128 };
        let count = if count < self.scratch.len() { count } else { self.scratch.len() };
        let mut hops: Vec<u16> = Vec::new();
        let mut i: usize = 0;
        while i < count
            invariant
                i <= count <= self.scratch@.len(),
                hops@ == self.scratch@.take(i as int),
            decreases count - i,
        {
            hops.push(self.scratch[i]);
            i = i + 1;
            proof { assert(hops@ =~= self.scratch@.take(i as int)); }
        }
        Ok(RouteEvent { feeder_id, collector_id, hops, quality })
    }

    fn read_seeds(&mut self, cursor: &mut ByteCursor<'_>, n: usize) -> (r: Result<(), GridError>)
        requires
            old(self).scratch@ == Seq::<u16>::empty(),
        ensures
            final(self)@ == old(self)@,
            final(cursor).data() == old(cursor).data(),
            (match r {
                Ok(_) => Ok::<Seq<u16>, GridError>(final(self).scratch@),
                Err(e) => Err(e),
            }, final(cursor).pos()) == spec_seeds(old(self)@, old(cursor).data(), old(cursor).pos(), n as nat, Seq::empty()),
    {
        let ghost s = old(self)@;
        let ghost d = old(cursor).data();
        let mut k: usize = 0;
        while k < n
            invariant
                k <= n,
                s == old(self)@,
                d == old(cursor).data(),
                self@ == s,
                cursor.data() == d,
                spec_seeds(s, d, old(cursor).pos(), n as nat, Seq::empty())
                    == spec_seeds(s, d, cursor.pos(), (n - k) as nat, self.scratch@),
            decreases n - k,
        {
            let index = cursor.read_u8()? as usize;
            if index < self.entries.len() {
                proof { assert(s[index as int] == self.entries@[index as int]@); }
                self.scratch.push(self.entries[index].parent);
            }
            k = k + 1;
        }
        Ok(())
    }

    fn trim_by_quality(&mut self, minimum: u8)
        ensures
            final(self)@ == spec_trim(old(self)@, minimum),
    {
        let ghost orig = old(self)@;
        let mut i: usize = 0;
        let ghost mut k: int = 0;
        proof {
            assert(orig.take(0) =~= Seq::<RouteEntryView>::empty());
            assert(self@ =~= spec_trim(orig.take(0), minimum) + orig.skip(0));
        }
        while i < self.entries.len()
            invariant
                0 <= k <= orig.len(),
                i == spec_trim(orig.take(k), minimum).len(),
                self@ == spec_trim(orig.take(k), minimum) + orig.skip(k),
            decreases orig.len() - k,
        {
            let ghost kept = spec_trim(orig.take(k), minimum);
            proof {
                assert(orig.take(k + 1).drop_last() =~= orig.take(k));
                assert(orig.take(k + 1).last() == orig[k]);
                assert(self@[i as int] == orig[k]);
                assert(self@[i as int] == self.entries@[i as int]@);
            }
            if self.entries[i].quality >= minimum {
                proof { assert(self@ =~= kept.push(orig[k]) + orig.skip(k + 1)); }
                i = i + 1;
            } else {
                let ghost before = self@;
                let _gone = self.entries.remove(i);
                proof {
                    assert(self@ =~= before.remove(i as int));
                    assert(before.remove(i as int) =~= kept + orig.skip(k + 1));
                }
            }
            proof { k = k + 1; }
        }
        proof {
            assert(orig.take(k) =~= orig);
            assert(orig.skip(k) =~= Seq::<RouteEntryView>::empty());
            assert(self@ =~= spec_trim(orig, minimum));
        }
    }

    pub fn len(&self) -> (n: usize)
        ensures
            n == self@.len(),
    {
        self.entries.len()
    }
}

impl Default for RouteTable {
    fn default() -> (t: Self)
        ensures
            t@ == Seq::<RouteEntryView>::empty(),
    {
        RouteTable::new()
    }
}

/// After trimming, every entry left has at least the asked quality, and
/// no entry of that quality was dropped.
pub proof fn law_trim_keeps_quality(s: Seq<RouteEntryView>, minimum: u8)
    ensures
        forall|j: int| 0 <= j < spec_trim(s, minimum).len() ==> #[trigger] spec_trim(s, minimum)[j].quality >= minimum,
        spec_trim(s, minimum).len() == s.filter(|e: RouteEntryView| e.quality >= minimum).len(),
    decreases s.len(),
{
    reveal_with_fuel(Seq::filter, 1);
    if s.len() > 0 {
        law_trim_keeps_quality(s.drop_last(), minimum);
        let rest = spec_trim(s.drop_last(), minimum);
        if s.last().quality >= minimum {
            assert forall|j: int| 0 <= j < rest.len() + 1 implies #[trigger] rest.push(s.last())[j].quality >= minimum by {
                if j < rest.len() {
                    assert(rest.push(s.last())[j] == rest[j]);
                }
            }
        }
    }
}

/// A decoded path never carries more hops than it declared, nor more
/// than 128.
pub proof fn law_path_hops_bounded(s: Seq<RouteEntryView>, d: Seq<u8>, p: int)
    ensures
        spec_compressed_path(s, d, p) matches Ok(ev) ==> ev.hops.len() <= 128
            && ev.hops.len() <= spec_read_u8(d, p + 4).0->Ok_0,
{
}


/// Whether an entry is the one for the given feeder and collector.
pub open spec fn for_pair(e: RouteEntryView, feeder_id: u16, collector_id: u16) -> bool {
    e.feeder_id == feeder_id && e.collector_id == collector_id
}

/// No two entries are for the same feeder and collector.
pub open spec fn pairs_unique(s: Seq<RouteEntryView>) -> bool {
    forall|i: int, j: int| 0 <= i < j < s.len() ==> !for_pair(#[trigger] s[j], #[trigger] s[i].feeder_id, s[i].collector_id)
}

/// Whether some entry is for the given feeder and collector.
pub open spec fn holds_pair(s: Seq<RouteEntryView>, feeder_id: u16, collector_id: u16) -> bool {
    exists|j: int| 0 <= j < s.len() && for_pair(#[trigger] s[j], feeder_id, collector_id)
}

/// Each pair that `r` has an entry for, `s` has one for too.
pub open spec fn pairs_within(r: Seq<RouteEntryView>, s: Seq<RouteEntryView>) -> bool {
    forall|k: int| 0 <= k < r.len() ==> holds_pair(s, #[trigger] r[k].feeder_id, r[k].collector_id)
}

proof fn lemma_entry_index_none(s: Seq<RouteEntryView>, feeder_id: u16, collector_id: u16)
    ensures
        entry_index(s, feeder_id, collector_id) is None ==> forall|j: int| 0 <= j < s.len() ==> !for_pair(#[trigger] s[j], feeder_id, collector_id),
    decreases s.len(),
{
    if s.len() > 0 {
        lemma_entry_index_none(s.drop_first(), feeder_id, collector_id);
        if entry_index(s, feeder_id, collector_id) is None {
            assert forall|j: int| 0 <= j < s.len() implies !for_pair(#[trigger] s[j], feeder_id, collector_id) by {
                if j > 0 {
                    assert(s[j] == s.drop_first()[j - 1]);
                }
            }
        }
    }
}

proof fn lemma_upsert_unique(s: Seq<RouteEntryView>, e: RouteEntryView)
    requires
        pairs_unique(s),
    ensures
        pairs_unique(spec_upsert(s, e)),
{
    lemma_entry_index(s, e.feeder_id, e.collector_id);
    lemma_entry_index_none(s, e.feeder_id, e.collector_id);
    let r = spec_upsert(s, e);
    match entry_index(s, e.feeder_id, e.collector_id) {
        Some(k) => {
            assert forall|i: int, j: int| 0 <= i < j < r.len() implies !for_pair(#[trigger] r[j], #[trigger] r[i].feeder_id, r[i].collector_id) by {
                assert(r[i].feeder_id == s[i].feeder_id && r[i].collector_id == s[i].collector_id);
                assert(r[j].feeder_id == s[j].feeder_id && r[j].collector_id == s[j].collector_id);
                assert(!for_pair(s[j], s[i].feeder_id, s[i].collector_id));
            }
        },
        None => {
            assert forall|i: int, j: int| 0 <= i < j < r.len() implies !for_pair(#[trigger] r[j], #[trigger] r[i].feeder_id, r[i].collector_id) by {
                assert(r[i] == s[i]);
                if j < s.len() {
                    assert(r[j] == s[j]);
                    assert(!for_pair(s[j], s[i].feeder_id, s[i].collector_id));
                } else {
                    assert(!for_pair(s[i], e.feeder_id, e.collector_id));
                }
            }
        },
    }
}

proof fn lemma_entries_unique(s: Seq<RouteEntryView>, d: Seq<u8>, p: int, n: nat)
    requires
        pairs_unique(s),
    ensures
        pairs_unique(spec_entries_from(s, d, p, n).1),
    decreases n,
{
    if n > 0 {
        let (r, q) = spec_entry_at(d, p);
        if r is Ok {
            lemma_upsert_unique(s, r->Ok_0);
            lemma_entries_unique(spec_upsert(s, r->Ok_0), d, q, (n - 1) as nat);
        }
    }
}

proof fn lemma_holds_pair_grows(s: Seq<RouteEntryView>, feeder_id: u16, collector_id: u16)
    requires
        s.len() > 0,
        holds_pair(s.drop_last(), feeder_id, collector_id),
    ensures
        holds_pair(s, feeder_id, collector_id),
{
    let j = choose|j: int| 0 <= j < s.drop_last().len() && for_pair(#[trigger] s.drop_last()[j], feeder_id, collector_id);
    assert(s.drop_last()[j] == s[j]);
}

proof fn lemma_trim_unique(s: Seq<RouteEntryView>, minimum: u8)
    requires
        pairs_unique(s),
    ensures
        pairs_unique(spec_trim(s, minimum)),
        pairs_within(spec_trim(s, minimum), s),
    decreases s.len(),
{
    if s.len() > 0 {
        let n = s.len() - 1;
        assert(pairs_unique(s.drop_last()));
        lemma_trim_unique(s.drop_last(), minimum);
        let rest = spec_trim(s.drop_last(), minimum);
        let r = spec_trim(s, minimum);
        if s.last().quality >= minimum {
            assert forall|i: int, j: int| 0 <= i < j < r.len() implies !for_pair(#[trigger] r[j], #[trigger] r[i].feeder_id, r[i].collector_id) by {
                assert(r[i] == rest[i]);
                if j < rest.len() {
                    assert(r[j] == rest[j]);
                } else {
                    assert(holds_pair(s.drop_last(), rest[i].feeder_id, rest[i].collector_id));
                    let m = choose|m: int| 0 <= m < s.drop_last().len() && for_pair(#[trigger] s.drop_last()[m], rest[i].feeder_id, rest[i].collector_id);
                    assert(s.drop_last()[m] == s[m]);
                    assert(r[j] == s[n]);
                    assert(!for_pair(s[n], s[m].feeder_id, s[m].collector_id));
                }
            }
        }
        assert forall|k: int| 0 <= k < r.len() implies holds_pair(s, #[trigger] r[k].feeder_id, r[k].collector_id) by {
            if k < rest.len() {
                assert(r[k] == rest[k]);
                assert(holds_pair(s.drop_last(), rest[k].feeder_id, rest[k].collector_id));
                lemma_holds_pair_grows(s, rest[k].feeder_id, rest[k].collector_id);
            } else {
                assert(r[k] == s[n]);
                assert(for_pair(s[n], s[n].feeder_id, s[n].collector_id));
            }
        }
    }
}

/// Every route message keeps the table free of two entries for the same
/// feeder and collector: an install updates the entry it matches, a trim
/// or a clear only drops entries.
pub proof fn law_route_pairs_stay_unique(s: Seq<RouteEntryView>, d: Seq<u8>, diag: DiagnosticsView)
    requires
        pairs_unique(s),
    ensures
        pairs_unique(spec_apply_route(s, d, diag).1),
{
    let (r, p) = spec_read_u8(d, 0);
    if r is Ok {
        let (rc, q) = spec_read_u8(d, p);
        if rc is Ok {
            lemma_entries_unique(s, d, q, rc->Ok_0 as nat);
            lemma_trim_unique(s, rc->Ok_0);
        }
    }
}


/// Installing a record: afterwards the table's entry for the record's
/// feeder and collector carries exactly the record's parent and quality;
/// the table grows by one exactly when no entry for that pair was there,
/// and the entries for other pairs stay as they were.
pub proof fn law_upsert_record(s: Seq<RouteEntryView>, e: RouteEntryView)
    ensures
        ({
            let r = spec_upsert(s, e);
            &&& entry_index(r, e.feeder_id, e.collector_id) matches Some(i) && r[i] == e
            &&& r.len() == s.len() + (if holds_pair(s, e.feeder_id, e.collector_id) { 0int } else { 1int })
            &&& forall|j: int| 0 <= j < s.len() && !for_pair(s[j], e.feeder_id, e.collector_id) ==> #[trigger] r[j] == s[j]
        }),
{
    lemma_entry_index(s, e.feeder_id, e.collector_id);
    lemma_entry_index_none(s, e.feeder_id, e.collector_id);
    let r = spec_upsert(s, e);
    match entry_index(s, e.feeder_id, e.collector_id) {
        Some(k) => {
            assert(for_pair(s[k], e.feeder_id, e.collector_id));
            lemma_entry_index_first_route(s, e.feeder_id, e.collector_id, k);
            assert forall|j: int| 0 <= j < k implies !for_pair(#[trigger] r[j], e.feeder_id, e.collector_id) by {
                assert(r[j] == s[j]);
            }
            lemma_entry_index_at(r, e.feeder_id, e.collector_id, k);
        },
        None => {
            assert forall|j: int| 0 <= j < s.len() implies !for_pair(#[trigger] r[j], e.feeder_id, e.collector_id) by {
                assert(r[j] == s[j]);
            }
            lemma_entry_index_at(r, e.feeder_id, e.collector_id, s.len() as int);
            assert(!holds_pair(s, e.feeder_id, e.collector_id));
        },
    }
}

proof fn lemma_entry_index_first_route(s: Seq<RouteEntryView>, feeder_id: u16, collector_id: u16, k: int)
    requires
        entry_index(s, feeder_id, collector_id) == Some(k),
    ensures
        forall|j: int| 0 <= j < k ==> !for_pair(#[trigger] s[j], feeder_id, collector_id),
        holds_pair(s, feeder_id, collector_id),
    decreases s.len(),
{
    lemma_entry_index(s, feeder_id, collector_id);
    if k > 0 {
        lemma_entry_index_first_route(s.drop_first(), feeder_id, collector_id, k - 1);
        assert forall|j: int| 0 <= j < k implies !for_pair(#[trigger] s[j], feeder_id, collector_id) by {
            if j > 0 { assert(s[j] == s.drop_first()[j - 1]); }
        }
    }
    assert(for_pair(s[k], feeder_id, collector_id));
}

proof fn lemma_entry_index_at(s: Seq<RouteEntryView>, feeder_id: u16, collector_id: u16, k: int)
    requires
        0 <= k < s.len(),
        for_pair(s[k], feeder_id, collector_id),
        forall|j: int| 0 <= j < k ==> !for_pair(#[trigger] s[j], feeder_id, collector_id),
    ensures
        entry_index(s, feeder_id, collector_id) == Some(k),
    decreases k,
{
    if k > 0 {
        assert(!for_pair(s[0], feeder_id, collector_id));
        assert forall|j: int| 0 <= j < k - 1 implies !for_pair(#[trigger] s.drop_first()[j], feeder_id, collector_id) by {
            assert(s.drop_first()[j] == s[j + 1]);
        }
        lemma_entry_index_at(s.drop_first(), feeder_id, collector_id, k - 1);
    }
}

/// An install message of one record for a pair the table already holds
/// (in a table with one entry per pair, as every route message keeps it)
/// leaves that pair's entry with the record's parent and quality, so a
/// following trim at `minimum` keeps the entry exactly when the new
/// quality reaches it.
pub proof fn law_reinstall_then_trim(s: Seq<RouteEntryView>, d: Seq<u8>, diag: DiagnosticsView, minimum: u8)
    requires
        pairs_unique(s),
        d.len() == 9,
        d[0] == 0x01,
        d[1] == 1,
        holds_pair(s, (d[2] + 256 * d[3]) as u16, (d[4] + 256 * d[5]) as u16),
    ensures
        ({
            let feeder = (d[2] + 256 * d[3]) as u16;
            let collector = (d[4] + 256 * d[5]) as u16;
            let t = spec_apply_route(s, d, diag).1;
            &&& spec_apply_route(s, d, diag).0 is Ok
            &&& t.len() == s.len()
            &&& entry_index(t, feeder, collector) matches Some(i) && t[i].parent == (d[6] + 256 * d[7]) as u16
                && t[i].quality == d[8]
            &&& holds_pair(spec_trim(t, minimum), feeder, collector) <==> d[8] >= minimum
        }),
{
    let feeder = (d[2] + 256 * d[3]) as u16;
    let collector = (d[4] + 256 * d[5]) as u16;
    let e = RouteEntryView { feeder_id: feeder, collector_id: collector, parent: (d[6] + 256 * d[7]) as u16, quality: d[8] };
    assert(spec_entry_at(d, 2) == (Ok::<RouteEntryView, GridError>(e), 9int));
    assert(spec_entries_from(spec_upsert(s, e), d, 9, 0) == (Ok::<(), GridError>(()), spec_upsert(s, e)));
    law_upsert_record(s, e);
    let t = spec_upsert(s, e);
    lemma_upsert_unique(s, e);
    lemma_entry_index(t, feeder, collector);
    let i = entry_index(t, feeder, collector)->0;
    assert forall|j: int| 0 <= j < t.len() && j != i implies !for_pair(#[trigger] t[j], t[i].feeder_id, t[i].collector_id) by {
        if j < i {
            assert(!for_pair(t[i], t[j].feeder_id, t[j].collector_id));
        } else {
            assert(!for_pair(t[j], t[i].feeder_id, t[i].collector_id));
        }
    }
    lemma_trim_pair(t, minimum, i);
}

/// A trim keeps the entry at `i` exactly when its quality reaches the
/// minimum, when it is the only entry for its pair.
proof fn lemma_trim_pair(t: Seq<RouteEntryView>, minimum: u8, i: int)
    requires
        0 <= i < t.len(),
        forall|j: int| 0 <= j < t.len() && j != i ==> !for_pair(#[trigger] t[j], t[i].feeder_id, t[i].collector_id),
    ensures
        holds_pair(spec_trim(t, minimum), t[i].feeder_id, t[i].collector_id) <==> t[i].quality >= minimum,
    decreases t.len(),
{
    let f = t[i].feeder_id;
    let c = t[i].collector_id;
    let n = t.len() - 1;
    let rest = spec_trim(t.drop_last(), minimum);
    if i < n {
        assert forall|j: int| 0 <= j < t.drop_last().len() && j != i implies !for_pair(#[trigger] t.drop_last()[j], f, c) by {
            assert(t.drop_last()[j] == t[j]);
        }
        assert(t.drop_last()[i] == t[i]);
        lemma_trim_pair(t.drop_last(), minimum, i);
        assert(!for_pair(t[n], f, c));
        if t.last().quality >= minimum {
            if holds_pair(rest.push(t.last()), f, c) {
                let j = choose|j: int| 0 <= j < rest.push(t.last()).len() && for_pair(#[trigger] rest.push(t.last())[j], f, c);
                if j < rest.len() { assert(rest.push(t.last())[j] == rest[j]); }
            }
            if holds_pair(rest, f, c) {
                let j = choose|j: int| 0 <= j < rest.len() && for_pair(#[trigger] rest[j], f, c);
                assert(rest.push(t.last())[j] == rest[j]);
            }
        }
    } else {
        lemma_trim_members(t.drop_last(), minimum);
        if holds_pair(rest, f, c) {
            let j = choose|j: int| 0 <= j < rest.len() && for_pair(#[trigger] rest[j], f, c);
            let m = choose|m: int| 0 <= m < t.drop_last().len() && #[trigger] t.drop_last()[m] == rest[j];
            assert(t.drop_last()[m] == t[m]);
        }
        if t.last().quality >= minimum {
            assert(rest.push(t.last())[rest.len() as int] == t[i]);
        } else {
            assert(!holds_pair(rest, f, c));
        }
    }
}

/// Every entry a trim keeps is one of the entries it was given.
proof fn lemma_trim_members(t: Seq<RouteEntryView>, minimum: u8)
    ensures
        forall|k: int| #![trigger spec_trim(t, minimum)[k]] 0 <= k < spec_trim(t, minimum).len()
            ==> exists|m: int| 0 <= m < t.len() && #[trigger] t[m] == spec_trim(t, minimum)[k],
    decreases t.len(),
{
    if t.len() > 0 {
        lemma_trim_members(t.drop_last(), minimum);
        let rest = spec_trim(t.drop_last(), minimum);
        let r = spec_trim(t, minimum);
        assert forall|k: int| #![trigger r[k]] 0 <= k < r.len() implies exists|m: int| 0 <= m < t.len() && #[trigger] t[m] == r[k] by {
            if k < rest.len() {
                assert(r[k] == rest[k]);
                let x = rest[k];
                let m = choose|m: int| 0 <= m < t.drop_last().len() && #[trigger] t.drop_last()[m] == rest[k];
                assert(t.drop_last()[m] == t[m]);
            } else {
                assert(r[k] == t[t.len() - 1]);
            }
        }
    }
}

} // verus!
