use vstd::prelude::*;
use crate::error::GridError;
use crate::frame::{Frame, FrameKind, FrameView, FLAG_FRAGMENT, fragmented, kind_byte, kind_of, with_payload_view};
use crate::model::{Diagnostics, DiagnosticsView};

verus! {

/// Largest reassembled payload.
pub const MAX_REASSEMBLED: usize = 8192;
/// Most fragments one message may announce.
pub const MAX_FRAGMENTS: usize = 32;

#[derive(Debug, Clone)]
struct FragmentSlot {
    session_id: u16,
    sequence: u16,
    kind_byte: u8,
    flags: u8,
    pieces: Vec<Option<Vec<u8>>>,
    received: usize,
}

/// A message being reassembled: its key, the kind and flags of its first
/// fragment, the pieces received so far and their count.
pub struct SlotView {
    pub session_id: u16,
    pub sequence: u16,
    pub kind_byte: u8,
    pub flags: u8,
    pub pieces: Seq<Option<Seq<u8>>>,
    pub received: nat,
}

/// Pieces taken by their views.
pub open spec fn pieces_view(v: Seq<Option<Vec<u8>>>) -> Seq<Option<Seq<u8>>> {
    v.map_values(|p: Option<Vec<u8>>| match p {
        Some(b) => Some(b@),
        None => None,
    })
}

impl View for FragmentSlot {
    type V = SlotView;

    closed spec fn view(&self) -> SlotView {
        SlotView {
            session_id: self.session_id,
            sequence: self.sequence,
            kind_byte: self.kind_byte,
            flags: self.flags,
            pieces: pieces_view(self.pieces@),
            received: self.received as nat,
        }
    }
}

/// How many pieces have arrived.
pub open spec fn count_some(p: Seq<Option<Seq<u8>>>) -> nat
    decreases p.len(),
{
    if p.len() == 0 { 0 } else { count_some(p.drop_last()) + if p.last() is Some { 1nat } else { 0nat } }
}

/// Bytes held by the pieces that have arrived.
pub open spec fn known_len(p: Seq<Option<Seq<u8>>>) -> nat
    decreases p.len(),
{
    if p.len() == 0 { 0 } else { known_len(p.drop_last()) + match p.last() { Some(b) => b.len(), None => 0 } }
}

/// The arrived pieces joined in order.
pub open spec fn concat_pieces(p: Seq<Option<Seq<u8>>>) -> Seq<u8>
    decreases p.len(),
{
    if p.len() == 0 { Seq::empty() } else { concat_pieces(p.drop_last()) + match p.last() { Some(b) => b, None => Seq::empty() } }
}

/// What every slot keeps: at most 32 pieces, a count that matches the
/// arrived pieces, at most `MAX_REASSEMBLED` bytes held, and flags
/// without the fragment bit.
pub open spec fn slot_wf(s: SlotView) -> bool {
    &&& s.pieces.len() <= MAX_FRAGMENTS
    &&& s.received == count_some(s.pieces)
    &&& known_len(s.pieces) <= MAX_REASSEMBLED
    &&& s.flags & FLAG_FRAGMENT == 0
}

/// Every open slot of an assembler is well formed.
pub open spec fn slots_wf(s: Seq<SlotView>) -> bool {
    forall|i: int| 0 <= i < s.len() ==> slot_wf(#[trigger] s[i])
}

/// Clearing the fragment bit leaves it clear.
pub proof fn lemma_flags_cleared(flags: u8)
    ensures
        (flags & !FLAG_FRAGMENT) & FLAG_FRAGMENT == 0,
{
    assert((flags & !2u8) & 2u8 == 0) by (bit_vector);
}

/// No more pieces arrive than there are.
pub proof fn lemma_count_bound(p: Seq<Option<Seq<u8>>>)
    ensures
        count_some(p) <= p.len(),
    decreases p.len(),
{
    if p.len() > 0 {
        lemma_count_bound(p.drop_last());
    }
}

/// Filling an empty piece adds one to the count and its length to the
/// bytes held.
pub proof fn lemma_fill_piece(p: Seq<Option<Seq<u8>>>, i: int, b: Seq<u8>)
    requires
        0 <= i < p.len(),
        p[i] is None,
    ensures
        count_some(p.update(i, Some(b))) == count_some(p) + 1,
        known_len(p.update(i, Some(b))) == known_len(p) + b.len(),
        count_some(p) < p.len(),
    decreases p.len(),
{
    let q = p.update(i, Some(b));
    lemma_count_bound(p.drop_last());
    if i < p.len() - 1 {
        lemma_fill_piece(p.drop_last(), i, b);
        assert(q.drop_last() =~= p.drop_last().update(i, Some(b)));
    } else {
        assert(q.drop_last() =~= p.drop_last());
    }
}

/// Index of the slot for a session and sequence.
pub open spec fn slot_index(s: Seq<SlotView>, session_id: u16, sequence: u16) -> Option<int>
    decreases s.len(),
{
    if s.len() == 0 {
        None
    } else if s[0].session_id == session_id && s[0].sequence == sequence {
        Some(0)
    } else {
        match slot_index(s.drop_first(), session_id, sequence) {
            Some(i) => Some(i + 1),
            None => None,
        }
    }
}

/// The slot a search finds is in range and has the key.
pub proof fn lemma_slot_index(s: Seq<SlotView>, session_id: u16, sequence: u16)
    ensures
        slot_index(s, session_id, sequence) matches Some(i) ==> 0 <= i < s.len()
            && s[i].session_id == session_id && s[i].sequence == sequence,
    decreases s.len(),
{
    if s.len() > 0 {
        lemma_slot_index(s.drop_first(), session_id, sequence);
    }
}

/// The empty slot a first fragment opens.
pub open spec fn new_slot(f: FrameView) -> SlotView {
    SlotView {
        session_id: f.session_id,
        sequence: f.sequence,
        kind_byte: kind_byte(f.kind),
        flags: f.flags & !FLAG_FRAGMENT,
        pieces: Seq::new(f.fragment_count as nat, |j: int| None::<Seq<u8>>),
        received: 0,
    }
}

/// The bytes a fragment would bring its message to; the fragment alone
/// when no slot is open or the sum does not fit a machine word.
pub open spec fn total_after(slots: Seq<SlotView>, f: FrameView) -> int {
    match slot_index(slots, f.session_id, f.sequence) {
        Some(i) => if known_len(slots[i].pieces) + f.payload.len() <= usize::MAX {
            (known_len(slots[i].pieces) + f.payload.len()) as int
        } else {
            f.payload.len() as int
        },
        None => f.payload.len() as int,
    }
}

/// Offering a frame to the assembler. Whole frames pass through. A
/// fragment of a message announcing more than 32 pieces, or one that would
/// bring its message past `MAX_REASSEMBLED` bytes, is refused. Otherwise
/// the slot for its session and sequence is found or opened (keeping the
/// kind and flags of this fragment), and the piece is stored unless its
/// index is out of range or already filled. When the last piece arrives
/// the slot is closed and the whole frame comes out, with the kind and
/// flags of the slot and the pieces joined in index order.
#[verifier::opaque]
pub open spec fn spec_push(slots: Seq<SlotView>, f: FrameView, diag: DiagnosticsView) -> (Result<Option<FrameView>, GridError>, Seq<SlotView>, DiagnosticsView) {
    if !fragmented(f) {
        (Ok(Some(f)), slots, diag)
    } else if f.fragment_count > MAX_FRAGMENTS {
        (Err(GridError::FragmentTooLarge), slots, diag)
    } else if total_after(slots, f) > MAX_REASSEMBLED {
        (Err(GridError::FragmentTooLarge), slots, diag)
    } else {
        let (slots1, si) = match slot_index(slots, f.session_id, f.sequence) {
            Some(i) => (slots, i),
            None => (slots.push(new_slot(f)), slots.len() as int),
        };
        let slot = slots1[si];
        let index = f.fragment_index as int;
        if index >= slot.pieces.len() || slot.pieces[index] is Some {
            (Err(GridError::FragmentConflict), slots1, diag)
        } else {
            let slot2 = SlotView { pieces: slot.pieces.update(index, Some(f.payload)), received: slot.received + 1, ..slot };
            let slots2 = slots1.update(si, slot2);
            if slot2.received != slot2.pieces.len() {
                (Ok(None), slots2, diag)
            } else {
                let whole = with_payload_view(f, concat_pieces(slot2.pieces));
                let complete = FrameView { flags: slot.flags, kind: kind_of(slot.kind_byte), ..whole };
                (
                    Ok(Some(complete)),
                    slots2.update(si, slots2.last()).drop_last(),
                    DiagnosticsView { fragments_completed: diag.fragments_completed + 1, ..diag },
                )
            }
        }
    }
}

#[derive(Debug)]
pub struct FragmentAssembler {
    slots: Vec<FragmentSlot>,
}

/// Slots taken by their views.
pub open spec fn slots_view(v: Seq<FragmentSlot>) -> Seq<SlotView> {
    v.map_values(|s: FragmentSlot| s@)
}

impl View for FragmentAssembler {
    type V = Seq<SlotView>;

    closed spec fn view(&self) -> Seq<SlotView> {
        slots_view(self.slots@)
    }
}

impl FragmentAssembler {
    #[verifier::type_invariant]
    spec fn inv(self) -> bool {
        forall|i: int| 0 <= i < self.slots@.len() ==> slot_wf(#[trigger] self.slots@[i]@)
    }

    pub fn new() -> (a: Self)
        ensures
            a@ == Seq::<SlotView>::empty(),
            slots_wf(a@),
    {
        let a = FragmentAssembler { slots: Vec::new() };
        proof { assert(a@ =~= Seq::<SlotView>::empty()); }
        a
    }

    fn find_slot(slots: &Vec<FragmentSlot>, session_id: u16, sequence: u16) -> (r: Option<usize>)
        ensures
            match r {
                Some(i) => slot_index(slots_view(slots@), session_id, sequence) == Some(i as int),
                None => slot_index(slots_view(slots@), session_id, sequence) is None,
            },
    {
        let ghost s = slots_view(slots@);
        let mut i: usize = 0;
        proof { assert(s.skip(0) =~= s); }
        while i < slots.len()
            invariant
                i <= s.len(),
                s == slots_view(slots@),
                s.len() == slots@.len(),
                slot_index(s, session_id, sequence) == match slot_index(s.skip(i as int), session_id, sequence) {
                    Some(j) => Some(j + i),
                    None => None::<int>,
                },
            decreases s.len() - i,
        {
            proof {
                assert(s.skip(i as int)[0] == s[i as int]);
                assert(s.skip(i as int).drop_first() =~= s.skip(i + 1));
            }
            if slots[i].session_id == session_id && slots[i].sequence == sequence {
                return Some(i);
            }
            i = i + 1;
        }
        None
    }

    fn known_bytes(slot: &FragmentSlot) -> (n: usize)
        requires
            slot_wf(slot@),
        ensures
            n == known_len(slot@.pieces),
    {
        let ghost p = slot@.pieces;
        let mut total: usize = 0;
        let mut j: usize = 0;
        while j < slot.pieces.len()
            invariant
                j <= p.len(),
                p == slot@.pieces,
                p.len() == slot.pieces@.len(),
                known_len(p) <= MAX_REASSEMBLED,
                total == known_len(p.take(j as int)),
            decreases p.len() - j,
        {
            proof {
                assert(p.take(j + 1).drop_last() =~= p.take(j as int));
                assert(p[j as int] == match slot.pieces@[j as int] { Some(b) => Some(b@), None => None::<Seq<u8>> });
                lemma_known_prefix(p, j + 1);
            }
            match &slot.pieces[j] {
                Some(bytes) => {
                    total = total + bytes.len();
                },
                None => {},
            }
            j = j + 1;
        }
        proof { assert(p.take(p.len() as int) =~= p); }
        total
    }

    pub fn push(&mut self, frame: Frame, diagnostics: &mut Diagnostics) -> (r: Result<Option<Frame>, GridError>)
        requires
            old(diagnostics).fragments_completed < usize::MAX,
        ensures
            (match r {
                Ok(Some(f)) => Ok::<Option<FrameView>, GridError>(Some(f@)),
                Ok(None) => Ok::<Option<FrameView>, GridError>(None),
                Err(e) => Err(e),
            }, final(self)@, final(diagnostics)@) == spec_push(old(self)@, frame@, old(diagnostics)@),
            final(diagnostics)@ == old(diagnostics)@ || final(diagnostics)@ == (DiagnosticsView {
                fragments_completed: old(diagnostics)@.fragments_completed + 1,
                ..old(diagnostics)@
            }),
            slots_wf(old(self)@),
            slots_wf(final(self)@),
            fragmented(frame@) ==> (r matches Ok(Some(h)) ==> !fragmented(h@)
                && h@.payload.len() <= MAX_REASSEMBLED
                && final(self)@.len() == old(self)@.len()
                    - (if slot_index(old(self)@, frame.session_id, frame.sequence) is Some { 1int } else { 0int })),
    {
        proof {
            use_type_invariant(&*self);
            law_reassembled_within_limit(self@, frame@, diagnostics@);
        }
        reveal(spec_push);
        let ghost slots0 = self@;
        let ghost fv = frame@;
        if !frame.is_fragmented() {
            return Ok(Some(frame));
        }
        if frame.fragment_count as usize > MAX_FRAGMENTS {
            return Err(GridError::FragmentTooLarge);
        }
        let mut slots: Vec<FragmentSlot> = Vec::new();
        core::mem::swap(&mut slots, &mut self.slots);
        assert(slots_view(slots@) == slots0);
        assert(forall|k: int| 0 <= k < slots@.len() ==> slot_wf(#[trigger] slots@[k]@));
        proof { lemma_slot_index(slots0, fv.session_id, fv.sequence); }
        let found = Self::find_slot(&slots, frame.session_id, frame.sequence);
        let total_len = match found {
            Some(i) => {
                let known = Self::known_bytes(&slots[i]);
                match known.checked_add(frame.payload.len()) {
                    Some(t) => t,
                    None => frame.payload.len(),
                }
            },
            None => frame.payload.len(),
        };
        if total_len > MAX_REASSEMBLED {
            self.slots = slots;
            return Err(GridError::FragmentTooLarge);
        }
        let index = frame.fragment_index as usize;
        let count = frame.fragment_count as usize;
        let slot_index = Self::find_or_create_slot(&mut slots, &frame, count);
        let ghost slots1 = slots_view(slots@);
        let ghost sv = slots1[slot_index as int];
        assert(known_len(sv.pieces) + fv.payload.len() <= MAX_REASSEMBLED);
        assert(forall|k: int| 0 <= k < slots@.len() ==> slot_wf(#[trigger] slots@[k]@));
        if index >= slots[slot_index].pieces.len() {
            self.slots = slots;
            return Err(GridError::FragmentConflict);
        }
        proof { assert(sv.pieces[index as int] == match slots@[slot_index as int].pieces@[index as int] { Some(b) => Some(b@), None => None::<Seq<u8>> }); }
        if slots[slot_index].pieces[index].is_some() {
            self.slots = slots;
            return Err(GridError::FragmentConflict);
        }
        let mut slot = FragmentSlot { session_id: 0, sequence: 0, kind_byte: 0, flags: 0, pieces: Vec::new(), received: 0 };
        core::mem::swap(&mut slot, &mut slots[slot_index]);
        assert(slot@ == sv);
        proof {
            lemma_fill_piece(sv.pieces, index as int, fv.payload);
        }
        slot.pieces.set(index, Some(vstd::slice::slice_to_vec(frame.payload.as_slice())));
        slot.received = slot.received + 1;
        proof {
            assert(pieces_view(slot.pieces@) =~= sv.pieces.update(index as int, Some(fv.payload)));
        }
        assert(slot_wf(slot@));
        if slot.received != slot.pieces.len() {
            let ghost before_back = slots@;
            core::mem::swap(&mut slot, &mut slots[slot_index]);
            proof {
                assert forall|k: int| 0 <= k < slots@.len() implies slot_wf(#[trigger] slots@[k]@) by {
                    if k != slot_index {
                        assert(slots@[k] == before_back[k]);
                    }
                }
                assert(slots_view(slots@) =~= slots1.update(slot_index as int, slots@[slot_index as int]@));
                assert(forall|k: int| 0 <= k < slots@.len() ==> slot_wf(#[trigger] slots@[k]@));
            }
            self.slots = slots;
            return Ok(None);
        }
        let payload = Self::join_pieces(&slot);
        diagnostics.fragments_completed = diagnostics.fragments_completed + 1;
        let mut complete = frame.with_payload(payload);
        complete.flags = slot.flags;
        complete.kind = FrameKind::from_byte(slot.kind_byte);
        let ghost before_remove = slots@;
        let _emptied = slots.swap_remove(slot_index);
        proof {
            let slots2 = slots1.update(slot_index as int, slot@);
            assert(slots_view(slots@) =~= slots2.update(slot_index as int, slots2.last()).drop_last());
            assert forall|k: int| 0 <= k < slots@.len() implies slot_wf(#[trigger] slots@[k]@) by {
                if k == slot_index {
                    assert(slots@[k] == before_remove.last());
                } else {
                    assert(slots@[k] == before_remove[k]);
                }
            }
        }
        self.slots = slots;
        Ok(Some(complete))
    }

    /// The index of the slot for the frame's session and sequence, opening
    /// an empty one at the end when there is none.
    fn find_or_create_slot(slots: &mut Vec<FragmentSlot>, frame: &Frame, count: usize) -> (i: usize)
        requires
            count == frame.fragment_count,
            count <= MAX_FRAGMENTS,
            frame@.payload.len() <= MAX_REASSEMBLED,
            forall|k: int| 0 <= k < old(slots)@.len() ==> slot_wf(#[trigger] old(slots)@[k]@),
        ensures
            match slot_index(slots_view(old(slots)@), frame.session_id, frame.sequence) {
                Some(j) => final(slots)@ == old(slots)@ && i == j,
                None => slots_view(final(slots)@) == slots_view(old(slots)@).push(new_slot(frame@))
                    && i == old(slots)@.len() && known_len(new_slot(frame@).pieces) == 0,
            },
            i < final(slots)@.len(),
            forall|k: int| 0 <= k < final(slots)@.len() ==> slot_wf(#[trigger] final(slots)@[k]@),
    {
        proof { lemma_slot_index(slots_view(slots@), frame.session_id, frame.sequence); }
        match Self::find_slot(slots, frame.session_id, frame.sequence) {
            Some(i) => i,
            None => {
                let ghost before = slots@;
                let slot = Self::open_slot(frame, count);
                slots.push(slot);
                proof {
                    assert(slots_view(slots@) =~= slots_view(before).push(new_slot(frame@)));
                    assert forall|k: int| 0 <= k < slots@.len() implies slot_wf(#[trigger] slots@[k]@) by {
                        if k < before.len() { assert(slots@[k] == before[k]); }
                    }
                }
                slots.len() - 1
            },
        }
    }

    fn open_slot(frame: &Frame, count: usize) -> (s: FragmentSlot)
        requires
            count == frame.fragment_count,
            count <= MAX_FRAGMENTS,
            frame@.payload.len() <= MAX_REASSEMBLED,
        ensures
            s@ == new_slot(frame@),
            slot_wf(s@),
            known_len(s@.pieces) == 0,
    {
        let mut pieces: Vec<Option<Vec<u8>>> = Vec::new();
        let mut j: usize = 0;
        while j < count
            invariant
                j <= count,
                pieces@.len() == j,
                forall|k: int| 0 <= k < j ==> pieces@[k] is None,
            decreases count - j,
        {
            pieces.push(None);
            j = j + 1;
        }
        let s = FragmentSlot {
            session_id: frame.session_id,
            sequence: frame.sequence,
            kind_byte: frame.kind.as_byte(),
            flags: frame.flags & !FLAG_FRAGMENT,
            pieces,
            received: 0,
        };
        proof {
            assert(s@.pieces =~= new_slot(frame@).pieces);
            lemma_all_none(s@.pieces);
            lemma_flags_cleared(frame.flags);
        }
        s
    }

    fn join_pieces(slot: &FragmentSlot) -> (out: Vec<u8>)
        ensures
            out@ == concat_pieces(slot@.pieces),
    {
        let ghost p = slot@.pieces;
        let mut out: Vec<u8> = Vec::new();
        let mut j: usize = 0;
        while j < slot.pieces.len()
            invariant
                j <= p.len(),
                p == slot@.pieces,
                p.len() == slot.pieces@.len(),
                out@ == concat_pieces(p.take(j as int)),
            decreases p.len() - j,
        {
            proof {
                assert(p.take(j + 1).drop_last() =~= p.take(j as int));
                assert(p[j as int] == match slot.pieces@[j as int] { Some(b) => Some(b@), None => None::<Seq<u8>> });
            }
            match &slot.pieces[j] {
                Some(bytes) => {
                    let mut copy = vstd::slice::slice_to_vec(bytes.as_slice());
                    out.append(&mut copy);
                },
                None => {},
            }
            j = j + 1;
            proof { assert(out@ =~= concat_pieces(p.take(j as int))); }
        }
        proof { assert(p.take(p.len() as int) =~= p); }
        out
    }

    pub fn pending_count(&self) -> (n: usize)
        ensures
            n == self@.len(),
    {
        self.slots.len()
    }
}

fn clone_slot(slot: &FragmentSlot) -> (c: FragmentSlot)
    ensures
        c@ == slot@,
{
    let mut pieces: Vec<Option<Vec<u8>>> = Vec::new();
    let mut j: usize = 0;
    while j < slot.pieces.len()
        invariant
            j <= slot.pieces@.len(),
            pieces_view(pieces@) == pieces_view(slot.pieces@).take(j as int),
        decreases slot.pieces@.len() - j,
    {
        let piece = match &slot.pieces[j] {
            Some(bytes) => Some(vstd::slice::slice_to_vec(bytes.as_slice())),
            None => None,
        };
        let ghost before = pieces@;
        pieces.push(piece);
        proof {
            assert(pieces_view(pieces@) =~= pieces_view(before).push(pieces_view(slot.pieces@)[j as int]));
            assert(pieces_view(slot.pieces@).take(j + 1) =~= pieces_view(slot.pieces@).take(j as int).push(pieces_view(slot.pieces@)[j as int]));
        }
        j = j + 1;
    }
    proof { assert(pieces_view(slot.pieces@).take(slot.pieces@.len() as int) =~= pieces_view(slot.pieces@)); }
    FragmentSlot {
        session_id: slot.session_id,
        sequence: slot.sequence,
        kind_byte: slot.kind_byte,
        flags: slot.flags,
        pieces,
        received: slot.received,
    }
}

impl Clone for FragmentAssembler {
    fn clone(&self) -> (c: Self)
        ensures
            c@ == self@,
            slots_wf(c@),
    {
        proof { use_type_invariant(self); }
        let mut slots: Vec<FragmentSlot> = Vec::new();
        let mut i: usize = 0;
        while i < self.slots.len()
            invariant
                i <= self.slots@.len(),
                forall|k: int| 0 <= k < self.slots@.len() ==> slot_wf(#[trigger] self.slots@[k]@),
                slots_view(slots@) == slots_view(self.slots@).take(i as int),
            decreases self.slots@.len() - i,
        {
            let copy = clone_slot(&self.slots[i]);
            let ghost before = slots@;
            slots.push(copy);
            proof {
                assert(slots_view(slots@) =~= slots_view(before).push(copy@));
                assert(slots_view(self.slots@).take(i + 1) =~= slots_view(self.slots@).take(i as int).push(self.slots@[i as int]@));
            }
            i = i + 1;
        }
        proof {
            assert(slots_view(self.slots@).take(self.slots@.len() as int) =~= slots_view(self.slots@));
            assert forall|k: int| 0 <= k < slots@.len() implies slot_wf(#[trigger] slots@[k]@) by {
                assert(slots_view(slots@)[k] == slots@[k]@);
                assert(slots_view(self.slots@)[k] == self.slots@[k]@);
            }
        }
        FragmentAssembler { slots }
    }
}

impl Default for FragmentAssembler {
    fn default() -> (a: Self)
        ensures
            a@ == Seq::<SlotView>::empty(),
            slots_wf(a@),
    {
        FragmentAssembler::new()
    }
}

/// A prefix holds no more bytes than the whole.
pub proof fn lemma_known_prefix(p: Seq<Option<Seq<u8>>>, j: int)
    requires
        0 <= j <= p.len(),
    ensures
        known_len(p.take(j)) <= known_len(p),
    decreases p.len(),
{
    if j < p.len() {
        lemma_known_prefix(p.drop_last(), j);
        assert(p.drop_last().take(j) =~= p.take(j));
    } else {
        assert(p.take(j) =~= p);
    }
}

/// Pieces that have not arrived count nothing and hold nothing.
pub proof fn lemma_all_none(p: Seq<Option<Seq<u8>>>)
    requires
        forall|k: int| 0 <= k < p.len() ==> p[k] is None,
    ensures
        count_some(p) == 0,
        known_len(p) == 0,
    decreases p.len(),
{
    if p.len() > 0 {
        lemma_all_none(p.drop_last());
    }
}

// ---------------------------------------------------------------------
// Reassembly in order
// ---------------------------------------------------------------------

/// Offering frames in turn: the outcome of each offer, then the slots and
/// counters after the last.
pub open spec fn spec_push_all(slots: Seq<SlotView>, fs: Seq<FrameView>, diag: DiagnosticsView) -> (Seq<Result<Option<FrameView>, GridError>>, Seq<SlotView>, DiagnosticsView)
    decreases fs.len(),
{
    if fs.len() == 0 {
        (Seq::empty(), slots, diag)
    } else {
        let (rs, s1, d1) = spec_push_all(slots, fs.drop_last(), diag);
        let (r, s2, d2) = spec_push(s1, fs.last(), d1);
        (rs.push(r), s2, d2)
    }
}

/// The payloads of the first `k` frames joined in order.
pub open spec fn joined_payloads(fs: Seq<FrameView>, k: int) -> Seq<u8>
    decreases k,
{
    if k <= 0 { Seq::empty() } else { joined_payloads(fs, k - 1) + fs[k - 1].payload }
}

/// The pieces of a message of `m` fragments after its first `k` arrived.
pub open spec fn pieces_for(fs: Seq<FrameView>, k: int, m: nat) -> Seq<Option<Seq<u8>>> {
    Seq::new(m, |j: int| if j < k { Some(fs[j].payload) } else { None::<Seq<u8>> })
}

/// The slot of a message whose first `k` fragments arrived in order.
pub open spec fn slot_after(fs: Seq<FrameView>, k: int) -> SlotView {
    SlotView {
        session_id: fs[0].session_id,
        sequence: fs[0].sequence,
        kind_byte: kind_byte(fs[0].kind),
        flags: fs[0].flags & !FLAG_FRAGMENT,
        pieces: pieces_for(fs, k, fs.len()),
        received: k as nat,
    }
}

/// The frame reassembled from fragments that arrived in order: the last
/// fragment's header with the first fragment's kind and flags and the
/// payloads joined.
pub open spec fn reassembled(fs: Seq<FrameView>) -> FrameView {
    let whole = with_payload_view(fs.last(), joined_payloads(fs, fs.len() as int));
    FrameView { flags: fs[0].flags & !FLAG_FRAGMENT, kind: kind_of(kind_byte(fs[0].kind)), ..whole }
}

/// The fragments of one message, numbered in order.
pub open spec fn one_message_in_order(fs: Seq<FrameView>) -> bool {
    &&& 1 <= fs.len() <= MAX_FRAGMENTS
    &&& forall|k: int| 0 <= k < fs.len() ==> {
        &&& #[trigger] fs[k].session_id == fs[0].session_id
        &&& fs[k].sequence == fs[0].sequence
        &&& fs[k].fragment_count == fs.len()
        &&& fs[k].fragment_index == k
        &&& fragmented(fs[k])
    }
    &&& joined_payloads(fs, fs.len() as int).len() <= MAX_REASSEMBLED
}

proof fn lemma_pieces_for(fs: Seq<FrameView>, k: int, m: nat)
    requires
        0 <= k <= fs.len(),
        m <= fs.len(),
    ensures
        count_some(pieces_for(fs, k, m)) == if k < m { k } else { m as int },
        known_len(pieces_for(fs, k, m)) == joined_payloads(fs, if k < m { k } else { m as int }).len(),
        concat_pieces(pieces_for(fs, k, m)) == joined_payloads(fs, if k < m { k } else { m as int }),
    decreases m,
{
    if m > 0 {
        lemma_pieces_for(fs, k, (m - 1) as nat);
        assert(pieces_for(fs, k, m).drop_last() =~= pieces_for(fs, k, (m - 1) as nat));
    }
}

proof fn lemma_joined_prefix(fs: Seq<FrameView>, a: int, b: int)
    requires
        0 <= a <= b,
    ensures
        joined_payloads(fs, a).len() <= joined_payloads(fs, b).len(),
    decreases b,
{
    if a < b {
        lemma_joined_prefix(fs, a, b - 1);
    }
}

proof fn lemma_slot_index_push(s: Seq<SlotView>, x: SlotView)
    requires
        slot_index(s, x.session_id, x.sequence) is None,
    ensures
        slot_index(s.push(x), x.session_id, x.sequence) == Some(s.len() as int),
    decreases s.len(),
{
    if s.len() > 0 {
        lemma_slot_index_push(s.drop_first(), x);
        assert(s.push(x).drop_first() =~= s.drop_first().push(x));
    }
}

/// After the first `k` fragments of a message arrive in order (fewer than
/// all), every offer has answered `None` and the message's slot sits after
/// the slots that were there before.
proof fn lemma_in_order_prefix(slots: Seq<SlotView>, fs: Seq<FrameView>, diag: DiagnosticsView, k: int)
    requires
        one_message_in_order(fs),
        slot_index(slots, fs[0].session_id, fs[0].sequence) is None,
        1 <= k < fs.len(),
    ensures
        ({
            let (rs, s, d) = spec_push_all(slots, fs.take(k), diag);
            &&& rs.len() == k
            &&& forall|j: int| 0 <= j < k ==> rs[j] == Ok::<Option<FrameView>, GridError>(None)
            &&& s == slots.push(slot_after(fs, k))
            &&& d == diag
        }),
    decreases k,
{
    reveal(spec_push);
    let f = fs[k - 1];
    assert(fs.take(k).drop_last() =~= fs.take(k - 1));
    assert(fs.take(k).last() == f);
    assert(f.session_id == fs[0].session_id);
    let n = fs.len();
    lemma_joined_prefix(fs, k, n as int);
    lemma_pieces_for(fs, k - 1, n as nat);
    lemma_pieces_for(fs, k, n as nat);
    if k == 1 {
        assert(fs.take(0) =~= Seq::<FrameView>::empty());
        assert(spec_push_all(slots, fs.take(0), diag) == (Seq::<Result<Option<FrameView>, GridError>>::empty(), slots, diag));
        let fresh = new_slot(f);
        assert(fresh.pieces =~= pieces_for(fs, 0, n as nat));
        assert(fresh == slot_after(fs, 0));
        lemma_slot_index_push(slots, fresh);
        let s1 = slots.push(fresh);
        assert(fresh.pieces.update(0, Some(f.payload)) =~= pieces_for(fs, 1, n as nat));
        assert(s1.update(slots.len() as int, slot_after(fs, 1)) =~= slots.push(slot_after(fs, 1)));
    } else {
        lemma_in_order_prefix(slots, fs, diag, k - 1);
        let prev = slot_after(fs, k - 1);
        lemma_slot_index_push(slots, prev);
        let s1 = slots.push(prev);
        assert(s1[slots.len() as int] == prev);
        assert(prev.pieces.update(k - 1, Some(f.payload)) =~= pieces_for(fs, k, n as nat));
        assert(s1.update(slots.len() as int, slot_after(fs, k)) =~= slots.push(slot_after(fs, k)));
    }
    let (rs, s, d) = spec_push_all(slots, fs.take(k), diag);
    let (rs0, s0, d0) = spec_push_all(slots, fs.take(k - 1), diag);
    assert forall|j: int| 0 <= j < k implies rs[j] == Ok::<Option<FrameView>, GridError>(None) by {
        if j < k - 1 {
            assert(rs[j] == rs0[j]);
        }
    }
}

/// Fragments of one message offered in order, with no slot open for it
/// before: every offer but the last answers `None`, the last yields the
/// reassembled frame, the slot is closed again, and one completion is
/// counted.
pub proof fn law_in_order_reassembly(slots: Seq<SlotView>, fs: Seq<FrameView>, diag: DiagnosticsView)
    requires
        one_message_in_order(fs),
        slot_index(slots, fs[0].session_id, fs[0].sequence) is None,
    ensures
        ({
            let (rs, s, d) = spec_push_all(slots, fs, diag);
            &&& rs.len() == fs.len()
            &&& forall|j: int| 0 <= j < fs.len() - 1 ==> rs[j] == Ok::<Option<FrameView>, GridError>(None)
            &&& rs[fs.len() - 1] == Ok::<Option<FrameView>, GridError>(Some(reassembled(fs)))
            &&& s == slots
            &&& d == (DiagnosticsView { fragments_completed: diag.fragments_completed + 1, ..diag })
        }),
{
    reveal(spec_push);
    let n = fs.len() as int;
    let f = fs[n - 1];
    assert(fs.take(n) =~= fs);
    assert(fs.drop_last() =~= fs.take(n - 1));
    assert(f.session_id == fs[0].session_id);
    lemma_pieces_for(fs, n - 1, n as nat);
    lemma_pieces_for(fs, n, n as nat);
    let prev = slot_after(fs, n - 1);
    if n == 1 {
        assert(fs.take(0) =~= Seq::<FrameView>::empty());
        assert(spec_push_all(slots, fs.take(0), diag) == (Seq::<Result<Option<FrameView>, GridError>>::empty(), slots, diag));
        let fresh = new_slot(f);
        assert(fresh.pieces =~= pieces_for(fs, 0, n as nat));
        assert(fresh == prev);
    } else {
        lemma_in_order_prefix(slots, fs, diag, n - 1);
    }
    lemma_slot_index_push(slots, prev);
    let s1 = slots.push(prev);
    assert(s1[slots.len() as int] == prev);
    let full = prev.pieces.update(n - 1, Some(f.payload));
    assert(full =~= pieces_for(fs, n, n as nat));
    let s2 = s1.update(slots.len() as int, SlotView { pieces: full, received: n as nat, ..prev });
    assert(s2.update(slots.len() as int, s2.last()).drop_last() =~= slots);
    let (rs, s, d) = spec_push_all(slots, fs, diag);
    let (rs0, s0, d0) = spec_push_all(slots, fs.take(n - 1), diag);
    assert forall|j: int| 0 <= j < n - 1 implies rs[j] == Ok::<Option<FrameView>, GridError>(None) by {
        assert(rs[j] == rs0[j]);
    }
}


proof fn lemma_concat_len(p: Seq<Option<Seq<u8>>>)
    ensures
        concat_pieces(p).len() == known_len(p),
    decreases p.len(),
{
    if p.len() > 0 {
        lemma_concat_len(p.drop_last());
    }
}

/// A message put together from fragments is whole (not fragmented) and
/// never holds more than `MAX_REASSEMBLED` bytes, its slot is closed (so
/// one slot fewer is open, unless the message opened and closed it in
/// this one offer), and every slot that stays open is well formed.
pub proof fn law_reassembled_within_limit(slots: Seq<SlotView>, f: FrameView, diag: DiagnosticsView)
    requires
        slots_wf(slots),
    ensures
        fragmented(f) ==> (spec_push(slots, f, diag).0 matches Ok(Some(w)) ==> w.payload.len() <= MAX_REASSEMBLED
            && !fragmented(w)
            && spec_push(slots, f, diag).1.len() == slots.len()
                - (if slot_index(slots, f.session_id, f.sequence) is Some { 1int } else { 0int })),
        slots_wf(spec_push(slots, f, diag).1),
{
    reveal(spec_push);
    lemma_slot_index(slots, f.session_id, f.sequence);
    if fragmented(f) && f.fragment_count <= MAX_FRAGMENTS && total_after(slots, f) <= MAX_REASSEMBLED {
        let (slots1, si) = match slot_index(slots, f.session_id, f.sequence) {
            Some(i) => (slots, i),
            None => (slots.push(new_slot(f)), slots.len() as int),
        };
        let slot = slots1[si];
        let index = f.fragment_index as int;
        if slot_index(slots, f.session_id, f.sequence) is None {
            lemma_all_none(new_slot(f).pieces);
            lemma_flags_cleared(f.flags);
            assert forall|i: int| 0 <= i < slots1.len() implies slot_wf(#[trigger] slots1[i]) by {
                if i < slots.len() { assert(slots1[i] == slots[i]); }
            }
        }
        assert(slot_wf(slot));
        if !(index >= slot.pieces.len() || slot.pieces[index] is Some) {
            lemma_fill_piece(slot.pieces, index, f.payload);
            let slot2 = SlotView { pieces: slot.pieces.update(index, Some(f.payload)), received: slot.received + 1, ..slot };
            lemma_concat_len(slot2.pieces);
            assert(known_len(slot2.pieces) <= MAX_REASSEMBLED);
            let slots2 = slots1.update(si, slot2);
            assert forall|i: int| 0 <= i < slots2.len() implies slot_wf(#[trigger] slots2[i]) by {
                if i != si { assert(slots2[i] == slots1[i]); }
            }
            if slot2.received == slot2.pieces.len() {
                let out = slots2.update(si, slots2.last()).drop_last();
                assert forall|i: int| 0 <= i < out.len() implies slot_wf(#[trigger] out[i]) by {
                    if i == si { assert(out[i] == slots2.last()); } else { assert(out[i] == slots2[i]); }
                }
            }
        }
    }
}


// ---------------------------------------------------------------------
// Reassembly in any order
// ---------------------------------------------------------------------

/// The piece with index `j` among the first `k` fragments, if one of them
/// carries that index.
pub open spec fn piece_among(fs: Seq<FrameView>, k: int, j: int) -> Option<Seq<u8>>
    decreases k,
{
    if k <= 0 {
        None
    } else if fs[k - 1].fragment_index == j {
        Some(fs[k - 1].payload)
    } else {
        piece_among(fs, k - 1, j)
    }
}

/// The pieces of a message of `m` fragments after the first `k` of `fs`
/// arrived, each at its own index.
pub open spec fn pieces_among(fs: Seq<FrameView>, k: int, m: nat) -> Seq<Option<Seq<u8>>> {
    Seq::new(m, |j: int| piece_among(fs, k, j))
}

/// Bytes carried by the first `k` fragments.
pub open spec fn payload_total(fs: Seq<FrameView>, k: int) -> nat
    decreases k,
{
    if k <= 0 { 0 } else { payload_total(fs, k - 1) + fs[k - 1].payload.len() }
}

/// The fragments of one message, each index once, in any order, holding
/// at most `MAX_REASSEMBLED` bytes in all.
pub open spec fn one_message(fs: Seq<FrameView>) -> bool {
    &&& 1 <= fs.len() <= MAX_FRAGMENTS
    &&& forall|k: int| 0 <= k < fs.len() ==> {
        &&& #[trigger] fs[k].session_id == fs[0].session_id
        &&& fs[k].sequence == fs[0].sequence
        &&& fs[k].fragment_count == fs.len()
        &&& fs[k].fragment_index < fs.len()
        &&& fragmented(fs[k])
    }
    &&& forall|a: int, b: int| 0 <= a < b < fs.len() ==> #[trigger] fs[a].fragment_index != #[trigger] fs[b].fragment_index
    &&& payload_total(fs, fs.len() as int) <= MAX_REASSEMBLED
}

/// The slot of a message after the first `k` of its fragments arrived.
pub open spec fn slot_among(fs: Seq<FrameView>, k: int) -> SlotView {
    SlotView {
        session_id: fs[0].session_id,
        sequence: fs[0].sequence,
        kind_byte: kind_byte(fs[0].kind),
        flags: fs[0].flags & !FLAG_FRAGMENT,
        pieces: pieces_among(fs, k, fs.len()),
        received: k as nat,
    }
}

/// The frame reassembled from fragments in any order: the last
/// fragment's header with the first fragment's kind and flags, and the
/// pieces joined in index order.
pub open spec fn reassembled_any(fs: Seq<FrameView>) -> FrameView {
    let whole = with_payload_view(fs.last(), concat_pieces(pieces_among(fs, fs.len() as int, fs.len())));
    FrameView { flags: fs[0].flags & !FLAG_FRAGMENT, kind: kind_of(kind_byte(fs[0].kind)), ..whole }
}

proof fn lemma_piece_absent(fs: Seq<FrameView>, k: int, j: int)
    requires
        0 <= k <= fs.len(),
        forall|m: int| 0 <= m < k ==> #[trigger] fs[m].fragment_index != j,
    ensures
        piece_among(fs, k, j) is None,
    decreases k,
{
    if k > 0 {
        lemma_piece_absent(fs, k - 1, j);
    }
}

proof fn lemma_payload_total_mono(fs: Seq<FrameView>, a: int, b: int)
    requires
        0 <= a <= b,
    ensures
        payload_total(fs, a) <= payload_total(fs, b),
    decreases b,
{
    if a < b {
        lemma_payload_total_mono(fs, a, b - 1);
    }
}

/// Fragment `k` finds its index still empty, and filling it gives the
/// pieces after `k + 1` fragments; the count and the bytes held follow.
proof fn lemma_pieces_step(fs: Seq<FrameView>, k: int)
    requires
        one_message(fs),
        0 <= k < fs.len(),
    ensures
        pieces_among(fs, k, fs.len())[fs[k].fragment_index as int] is None,
        pieces_among(fs, k + 1, fs.len()) == pieces_among(fs, k, fs.len()).update(fs[k].fragment_index as int, Some(fs[k].payload)),
        count_some(pieces_among(fs, k, fs.len())) == k,
        known_len(pieces_among(fs, k, fs.len())) == payload_total(fs, k),
    decreases k,
{
    let n = fs.len();
    let j = fs[k].fragment_index as int;
    assert(fs[k].session_id == fs[0].session_id);
    assert forall|m: int| 0 <= m < k implies #[trigger] fs[m].fragment_index != j by {
        assert(fs[m].fragment_index != fs[k].fragment_index);
    }
    lemma_piece_absent(fs, k, j);
    assert(pieces_among(fs, k + 1, n) =~= pieces_among(fs, k, n).update(j, Some(fs[k].payload)));
    if k == 0 {
        assert forall|i: int| 0 <= i < n implies #[trigger] pieces_among(fs, 0, n)[i] is None by {}
        lemma_all_none(pieces_among(fs, 0, n));
    } else {
        lemma_pieces_step(fs, k - 1);
        assert(fs[k - 1].session_id == fs[0].session_id);
        let prev = fs[k - 1].fragment_index as int;
        lemma_fill_piece(pieces_among(fs, k - 1, n), prev, fs[k - 1].payload);
    }
}

proof fn lemma_all_arrived(p: Seq<Option<Seq<u8>>>)
    requires
        count_some(p) == p.len(),
    ensures
        forall|j: int| 0 <= j < p.len() ==> #[trigger] p[j] is Some,
    decreases p.len(),
{
    if p.len() > 0 {
        lemma_count_bound(p.drop_last());
        lemma_all_arrived(p.drop_last());
        assert forall|j: int| 0 <= j < p.len() implies #[trigger] p[j] is Some by {
            if j < p.len() - 1 {
                assert(p[j] == p.drop_last()[j]);
            }
        }
    }
}

/// After the first `k` fragments of a message (fewer than all) arrive in
/// any order, every offer has answered `None` and the message's slot
/// sits after the slots that were there before.
proof fn lemma_any_order_prefix(slots: Seq<SlotView>, fs: Seq<FrameView>, diag: DiagnosticsView, k: int)
    requires
        one_message(fs),
        slot_index(slots, fs[0].session_id, fs[0].sequence) is None,
        1 <= k < fs.len(),
    ensures
        ({
            let (rs, s, d) = spec_push_all(slots, fs.take(k), diag);
            &&& rs.len() == k
            &&& forall|j: int| 0 <= j < k ==> rs[j] == Ok::<Option<FrameView>, GridError>(None)
            &&& s == slots.push(slot_among(fs, k))
            &&& d == diag
        }),
    decreases k,
{
    reveal(spec_push);
    let n = fs.len();
    let f = fs[k - 1];
    assert(fs.take(k).drop_last() =~= fs.take(k - 1));
    assert(fs.take(k).last() == f);
    assert(f.session_id == fs[0].session_id);
    lemma_pieces_step(fs, k - 1);
    lemma_payload_total_mono(fs, k, n as int);
    if k == 1 {
        assert(fs.take(0) =~= Seq::<FrameView>::empty());
        assert(spec_push_all(slots, fs.take(0), diag) == (Seq::<Result<Option<FrameView>, GridError>>::empty(), slots, diag));
        let fresh = new_slot(f);
        assert(fresh.pieces =~= pieces_among(fs, 0, n));
        assert(fresh == slot_among(fs, 0));
        lemma_slot_index_push(slots, fresh);
        let s1 = slots.push(fresh);
        assert(s1.update(slots.len() as int, slot_among(fs, 1)) =~= slots.push(slot_among(fs, 1)));
    } else {
        lemma_any_order_prefix(slots, fs, diag, k - 1);
        let prev = slot_among(fs, k - 1);
        lemma_slot_index_push(slots, prev);
        let s1 = slots.push(prev);
        assert(s1[slots.len() as int] == prev);
        assert(s1.update(slots.len() as int, slot_among(fs, k)) =~= slots.push(slot_among(fs, k)));
    }
    let (rs, s, d) = spec_push_all(slots, fs.take(k), diag);
    let (rs0, s0, d0) = spec_push_all(slots, fs.take(k - 1), diag);
    assert forall|j: int| 0 <= j < k implies rs[j] == Ok::<Option<FrameView>, GridError>(None) by {
        if j < k - 1 {
            assert(rs[j] == rs0[j]);
        }
    }
}

/// Fragments of one message offered in any order, with no slot open for
/// it before: every offer but the last answers `None`, and the last yields
/// the whole frame, whose payload joins the pieces in index order, every
/// index holding the payload of the fragment that carried it; the slot is
/// closed again and one completion is counted.
pub proof fn law_any_order_reassembly(slots: Seq<SlotView>, fs: Seq<FrameView>, diag: DiagnosticsView)
    requires
        one_message(fs),
        slot_index(slots, fs[0].session_id, fs[0].sequence) is None,
    ensures
        ({
            let (rs, s, d) = spec_push_all(slots, fs, diag);
            &&& rs.len() == fs.len()
            &&& forall|j: int| 0 <= j < fs.len() - 1 ==> rs[j] == Ok::<Option<FrameView>, GridError>(None)
            &&& rs[fs.len() - 1] == Ok::<Option<FrameView>, GridError>(Some(reassembled_any(fs)))
            &&& s == slots
            &&& d == (DiagnosticsView { fragments_completed: diag.fragments_completed + 1, ..diag })
        }),
        forall|k: int| 0 <= k < fs.len() ==> pieces_among(fs, fs.len() as int, fs.len())[#[trigger] fs[k].fragment_index as int]
            == Some(fs[k].payload),
        forall|j: int| 0 <= j < fs.len() ==> #[trigger] pieces_among(fs, fs.len() as int, fs.len())[j] is Some,
{
    reveal(spec_push);
    let n = fs.len() as int;
    let f = fs[n - 1];
    assert(fs.take(n) =~= fs);
    assert(fs.drop_last() =~= fs.take(n - 1));
    assert(f.session_id == fs[0].session_id);
    lemma_pieces_step(fs, n - 1);
    lemma_payload_total_mono(fs, n, n);
    let prev = slot_among(fs, n - 1);
    if n == 1 {
        assert(fs.take(0) =~= Seq::<FrameView>::empty());
        assert(spec_push_all(slots, fs.take(0), diag) == (Seq::<Result<Option<FrameView>, GridError>>::empty(), slots, diag));
        let fresh = new_slot(f);
        assert(fresh.pieces =~= pieces_among(fs, 0, n as nat));
        assert(fresh == prev);
    } else {
        lemma_any_order_prefix(slots, fs, diag, n - 1);
    }
    lemma_slot_index_push(slots, prev);
    let s1 = slots.push(prev);
    assert(s1[slots.len() as int] == prev);
    let full = pieces_among(fs, n, n as nat);
    lemma_fill_piece(prev.pieces, f.fragment_index as int, f.payload);
    let s2 = s1.update(slots.len() as int, SlotView { pieces: full, received: n as nat, ..prev });
    assert(s2.update(slots.len() as int, s2.last()).drop_last() =~= slots);
    let (rs, s, d) = spec_push_all(slots, fs, diag);
    let (rs0, s0, d0) = spec_push_all(slots, fs.take(n - 1), diag);
    assert forall|j: int| 0 <= j < n - 1 implies rs[j] == Ok::<Option<FrameView>, GridError>(None) by {
        assert(rs[j] == rs0[j]);
    }
    lemma_full_pieces(fs);
}

/// Once every fragment arrived, each index holds a piece, the payload of
/// the fragment that carried that index.
proof fn lemma_full_pieces(fs: Seq<FrameView>)
    requires
        one_message(fs),
    ensures
        forall|k: int| 0 <= k < fs.len() ==> pieces_among(fs, fs.len() as int, fs.len())[#[trigger] fs[k].fragment_index as int]
            == Some(fs[k].payload),
        forall|j: int| 0 <= j < fs.len() ==> #[trigger] pieces_among(fs, fs.len() as int, fs.len())[j] is Some,
{
    let n = fs.len() as int;
    let full = pieces_among(fs, n, n as nat);
    lemma_pieces_step(fs, n - 1);
    assert(fs[n - 1].session_id == fs[0].session_id);
    lemma_fill_piece(pieces_among(fs, n - 1, n as nat), fs[n - 1].fragment_index as int, fs[n - 1].payload);
    lemma_all_arrived(full);
    assert forall|k: int| 0 <= k < n implies full[#[trigger] fs[k].fragment_index as int] == Some(fs[k].payload) by {
        assert(fs[k].session_id == fs[0].session_id);
        assert forall|m: int| k < m < n implies #[trigger] fs[m].fragment_index != fs[k].fragment_index by {
            assert(fs[k].fragment_index != fs[m].fragment_index);
        }
        lemma_piece_at(fs, n, k);
    }
}

proof fn lemma_piece_at(fs: Seq<FrameView>, t: int, k: int)
    requires
        0 <= k < t <= fs.len(),
        forall|m: int| k < m < t ==> #[trigger] fs[m].fragment_index != fs[k].fragment_index,
    ensures
        piece_among(fs, t, fs[k].fragment_index as int) == Some(fs[k].payload),
    decreases t,
{
    if t > k + 1 {
        lemma_piece_at(fs, t - 1, k);
    }
}

} // verus!
