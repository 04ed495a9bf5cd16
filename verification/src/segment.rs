//! The cache on disk: pages are appended to segment files, and an index tells where each
//! of them lies.
//!
//! Files and the index are outside; what is decided between the accesses to them is here.
use crate::digest;
use crate::digest::{
    digest_path_text, from_le_bytes, hashable, key_digest, key_digest_text, le_bytes,
};
use crate::l2::{in_64_bits, L2Error, PutOutcome, StatsSnapshot};
use crate::text;
use crate::types::CacheKey;
use vstd::prelude::*;
use vstd::slice::slice_subrange;

verus! {

/// A segment that would grow beyond this size is left, and the next one begun: 1 GiB.
pub const MAX_SEG_BYTES: u64 = 1_073_741_824;

/// The name of a segment file.
pub open spec fn segment_name_text(id: nat) -> Seq<char> {
    "data-"@ + text::padded_decimal(id, 5) + ".seg"@
}

/// The name of a segment file.
pub fn segment_name(id: u32) -> (r: String)
    ensures
        r@ == segment_name_text(id as nat),
{
    let mut r = "data-".to_string();
    r.append(text::padded_decimal_text(id as u64, 5).as_str());
    r.append(".seg");
    r
}

/// The text between a prefix and a suffix.
pub open spec fn between(s: Seq<char>, prefix: Seq<char>, suffix: Seq<char>) -> Option<Seq<char>> {
    if prefix.len() + suffix.len() <= s.len() && s.take(prefix.len() as int) == prefix && s.skip(
        s.len() - suffix.len(),
    ) == suffix {
        Some(s.subrange(prefix.len() as int, s.len() - suffix.len()))
    } else {
        None
    }
}

/// The number of the segment that a file of this name is, if it is one.
pub open spec fn segment_id_of(name: Seq<char>) -> Option<nat> {
    match between(name, "data-"@, ".seg"@) {
        Some(t) => text::parse_unsigned(t, u32::MAX as nat),
        None => None,
    }
}

/// The number of the segment that a file of this name is, if it is one.
pub fn segment_id(name: &str) -> (r: Option<u32>)
    ensures
        match segment_id_of(name@) {
            Some(id) => r is Some && r->0 == id,
            None => r is None,
        },
{
    proof {
        reveal_strlit("data-");
        reveal_strlit(".seg");
    }
    let s = text::chars_of(name);
    let n = s.len();
    if n < 9 {
        return None;
    }
    let head = s[0] == 'd' && s[1] == 'a' && s[2] == 't' && s[3] == 'a' && s[4] == '-';
    let tail = s[n - 4] == '.' && s[n - 3] == 's' && s[n - 2] == 'e' && s[n - 1] == 'g';
    proof {
        let p = name@.take(5);
        let q = name@.skip(n - 4);
        assert(p[0] == s@[0] && p[1] == s@[1] && p[2] == s@[2] && p[3] == s@[3] && p[4] == s@[4]);
        assert(q[0] == s@[n - 4] && q[1] == s@[n - 3] && q[2] == s@[n - 2] && q[3] == s@[n - 1]);
        if head {
            assert(p =~= "data-"@);
        }
        if tail {
            assert(q =~= ".seg"@);
        }
        assert(head <==> p == "data-"@);
        assert(tail <==> q == ".seg"@);
    }
    if head && tail {
        match text::parse_digits(slice_subrange(s.as_slice(), 5, n - 4), u32::MAX as u64) {
            Some(id) => Some(id as u32),
            None => None,
        }
    } else {
        None
    }
}

/// A segment file has the number that its name was made from.
pub proof fn law_segment_name(id: u32)
    ensures
        segment_id_of(segment_name_text(id as nat)) == Some(id as nat),
{
    let d = text::padded_decimal(id as nat, 5);
    let s = segment_name_text(id as nat);
    let n = s.len() - ".seg"@.len();
    assert(s.take("data-"@.len() as int) =~= "data-"@);
    assert(s.skip(n) =~= ".seg"@);
    assert(s.subrange("data-"@.len() as int, n) =~= d);
    text::law_parse_decimal(id as nat, 5, u32::MAX as nat);
}

/// The highest number of a segment among files of these names; one, if there is none or
/// only zero.
pub open spec fn last_segment_of(names: Seq<Seq<char>>) -> nat
    decreases names.len(),
{
    if names.len() == 0 {
        1
    } else {
        let before = last_segment_of(names.drop_last());
        match segment_id_of(names.last()) {
            Some(id) => if id > before {
                id
            } else {
                before
            },
            None => before,
        }
    }
}

pub open spec fn names_of(s: Seq<String>) -> Seq<Seq<char>> {
    Seq::new(s.len(), |i: int| s[i]@)
}

/// The segment to append to: the last one among files of these names.
pub fn last_segment(names: &Vec<String>) -> (r: u32)
    ensures
        r == last_segment_of(names_of(names@)),
{
    let mut max: u32 = 1;
    let mut i: usize = 0;
    let ghost t = names_of(names@);
    assert(t.take(0) =~= Seq::<Seq<char>>::empty());
    while i < names.len()
        invariant
            i <= names@.len(),
            t == names_of(names@),
            max == last_segment_of(t.take(i as int)),
        decreases names@.len() - i,
    {
        assert(t.take(i + 1).drop_last() =~= t.take(i as int));
        match segment_id(names[i].as_str()) {
            Some(id) => {
                if id > max {
                    max = id;
                }
            },
            None => {},
        }
        i = i + 1;
    }
    assert(t.take(i as int) =~= t);
    max
}

/// The last segment has at least the number one and that of every segment file.
pub proof fn law_last_segment(names: Seq<Seq<char>>)
    ensures
        last_segment_of(names) >= 1,
        last_segment_of(names) <= u32::MAX,
        forall|i: int|
            0 <= i < names.len() ==> match segment_id_of(#[trigger] names[i]) {
                Some(id) => id <= last_segment_of(names),
                None => true,
            },
    decreases names.len(),
{
    if names.len() > 0 {
        let d = names.drop_last();
        law_last_segment(d);
        assert forall|i: int| 0 <= i < names.len() implies match segment_id_of(
            #[trigger] names[i],
        ) {
            Some(id) => id <= last_segment_of(names),
            None => true,
        } by {
            if i < d.len() {
                assert(d[i] == names[i]);
            }
        }
    }
}

/// Where a page lies.
#[derive(Debug, Clone, Copy, PartialEq, Eq, Structural)]
pub struct Location {
    pub segment: u32,
    pub off: u64,
    pub len: u32,
}

/// The index record of a location: segment, offset and length, the lowest byte of each
/// first.
pub open spec fn record_of(at: Location) -> Seq<u8> {
    le_bytes(at.segment as nat, 4) + le_bytes(at.off as nat, 8) + le_bytes(at.len as nat, 4)
}

/// The location that an index record tells; none, if it has not the length of one.
pub open spec fn location_of(record: Seq<u8>) -> Option<Location> {
    if record.len() == 16 {
        Some(
            Location {
                segment: from_le_bytes(record.subrange(0, 4)) as u32,
                off: from_le_bytes(record.subrange(4, 12)) as u64,
                len: from_le_bytes(record.subrange(12, 16)) as u32,
            },
        )
    } else {
        None
    }
}

/// The index record of a location.
pub fn encode_location(at: Location) -> (r: Vec<u8>)
    ensures
        r@ == record_of(at),
        r@.len() == 16,
{
    let mut r: Vec<u8> = Vec::new();
    digest::push_le_bytes(&mut r, at.segment as u64, 4);
    digest::push_le_bytes(&mut r, at.off, 8);
    digest::push_le_bytes(&mut r, at.len as u64, 4);
    proof {
        digest::lemma_byte_ranges();
        digest::law_le_bytes(at.segment as nat, 4);
        digest::law_le_bytes(at.off as nat, 8);
        digest::law_le_bytes(at.len as nat, 4);
    }
    assert(r@ =~= record_of(at));
    r
}

/// The location that an index record tells.
pub fn decode_location(record: &[u8]) -> (r: Option<Location>)
    ensures
        r == location_of(record@),
{
    if record.len() != 16 {
        return None;
    }
    let segment = digest::read_le_bytes(slice_subrange(record, 0, 4)) as u32;
    let off = digest::read_le_bytes(slice_subrange(record, 4, 12));
    let len = digest::read_le_bytes(slice_subrange(record, 12, 16)) as u32;
    Some(Location { segment, off, len })
}

/// A location is read back from its record.
pub proof fn law_record(at: Location)
    ensures
        record_of(at).len() == 16,
        location_of(record_of(at)) == Some(at),
{
    let r = record_of(at);
    digest::lemma_byte_ranges();
    digest::law_le_bytes(at.segment as nat, 4);
    digest::law_le_bytes(at.off as nat, 8);
    digest::law_le_bytes(at.len as nat, 4);
    assert(r.subrange(0, 4) =~= le_bytes(at.segment as nat, 4));
    assert(r.subrange(4, 12) =~= le_bytes(at.off as nat, 8));
    assert(r.subrange(12, 16) =~= le_bytes(at.len as nat, 4));
}

/// The segment that is appended to, by its number and its size.
#[derive(Debug, Clone, Copy, PartialEq, Eq, Structural)]
pub struct ActiveSegment {
    pub id: u32,
    pub size: u64,
}

/// What the cache on disk keeps in memory.
#[derive(Debug, Clone, Copy, PartialEq, Eq, Structural)]
pub struct SegmentStore {
    pub active: ActiveSegment,
    pub stats: StatsSnapshot,
}

impl SegmentStore {
    /// A store whose last segment has this number and size, before its files are counted.
    pub fn new(id: u32, size: u64) -> (r: SegmentStore)
        ensures
            r.active == (ActiveSegment { id, size }),
            r.stats == (StatsSnapshot { items: 0, bytes: 0 }),
    {
        SegmentStore { active: ActiveSegment { id, size }, stats: StatsSnapshot { items: 0, bytes: 0 } }
    }

    /// Counts a file that was found below the folder of the store.
    pub fn count_file(&mut self, len: u64)
        ensures
            final(self).active == old(self).active,
            final(self).stats.items == in_64_bits(old(self).stats.items + 1),
            final(self).stats.bytes == in_64_bits(old(self).stats.bytes + len),
    {
        self.stats.items = self.stats.items.wrapping_add(1);
        self.stats.bytes = self.stats.bytes.wrapping_add(len);
    }

    /// Counts what was taken out of the index. The bytes stay: their space is not
    /// reclaimed.
    pub fn count_removed(&mut self, removed: bool)
        ensures
            *final(self) == old(self).after_removal(removed),
    {
        if removed {
            self.stats.items = self.stats.items.saturating_sub(1);
        }
    }

    /// Counts a page that was written into a file of its own, in the place of one of
    /// `prev_len` bytes; an empty file is as good as none.
    pub fn count_page_file(&mut self, prev_len: u64, len: u64) -> (r: PutOutcome)
        ensures
            final(self).active == old(self).active,
            final(self).stats.items == if prev_len == 0 {
                in_64_bits(old(self).stats.items + 1)
            } else {
                old(self).stats.items as int
            },
            final(self).stats.bytes == in_64_bits(old(self).stats.bytes + len - prev_len),
            r == if prev_len == 0 {
                PutOutcome::Inserted
            } else {
                PutOutcome::Updated
            },
    {
        if prev_len == 0 {
            self.stats.items = self.stats.items.wrapping_add(1);
        }
        self.stats.bytes = self.stats.bytes.wrapping_add(len).wrapping_sub(prev_len);
        if prev_len == 0 {
            PutOutcome::Inserted
        } else {
            PutOutcome::Updated
        }
    }
}

/// Outside work that putting a page waits for.
#[derive(Debug)]
pub enum SegmentAction {
    /// Begin the segment with this number.
    OpenSegment(u32),
    /// Append the bytes to the segment, whose size is `off`.
    Append { segment: u32, off: u64, data: Vec<u8> },
    /// Put the record into the index, under the digest.
    IndexPut { digest: String, record: Vec<u8> },
    /// The page is put.
    Done(PutOutcome),
    Fail(L2Error),
}

/// What a [`SegmentAction`] asks for; of an error, its text.
pub enum ActionView {
    OpenSegment(u32),
    Append { segment: u32, off: u64, data: Seq<u8> },
    IndexPut { digest: Seq<char>, record: Seq<u8> },
    Done(PutOutcome),
    Fail(Seq<char>),
}

impl View for SegmentAction {
    type V = ActionView;

    open spec fn view(&self) -> ActionView {
        match self {
            SegmentAction::OpenSegment(id) => ActionView::OpenSegment(*id),
            SegmentAction::Append { segment, off, data } => ActionView::Append {
                segment: *segment,
                off: *off,
                data: data@,
            },
            SegmentAction::IndexPut { digest, record } => ActionView::IndexPut {
                digest: digest@,
                record: record@,
            },
            SegmentAction::Done(o) => ActionView::Done(*o),
            SegmentAction::Fail(e) => ActionView::Fail(e.text()),
        }
    }
}

/// What came of a [`SegmentAction`]; `Begin` comes before the first one.
#[derive(Debug)]
pub enum SegmentEvent {
    Begin,
    Opened,
    Appended,
    /// The record is in the index; whether there was one before.
    Indexed(bool),
    /// The work failed, with this error.
    Failed(String),
}

/// What a [`SegmentEvent`] tells.
pub enum EventView {
    Begin,
    Opened,
    Appended,
    Indexed(bool),
    Failed(Seq<char>),
}

impl View for SegmentEvent {
    type V = EventView;

    open spec fn view(&self) -> EventView {
        match self {
            SegmentEvent::Begin => EventView::Begin,
            SegmentEvent::Opened => EventView::Opened,
            SegmentEvent::Appended => EventView::Appended,
            SegmentEvent::Indexed(b) => EventView::Indexed(*b),
            SegmentEvent::Failed(t) => EventView::Failed(t@),
        }
    }
}

#[derive(Debug, Clone, Copy)]
enum Phase {
    Start,
    Rolling(u32),
    Writing,
    Indexing,
    Over,
}

/// How far putting a page is.
pub enum PhaseView {
    /// Its bytes are being collected.
    Start,
    /// The segment with this number is being begun.
    Rolling(u32),
    /// Its bytes are being appended.
    Writing,
    /// Its record is being put into the index.
    Indexing,
    Over,
}

/// A page that is put into the cache on disk.
#[derive(Debug)]
pub struct SegmentPut {
    digest: String,
    buf: Vec<u8>,
    len: u64,
    phase: Phase,
}

/// What is known of a page that is put into the cache on disk.
pub struct PutView {
    pub digest: Seq<char>,
    /// Its bytes, until they are appended.
    pub data: Seq<u8>,
    /// How many they are.
    pub len: int,
    pub phase: PhaseView,
}

impl View for SegmentPut {
    type V = PutView;

    closed spec fn view(&self) -> PutView {
        PutView {
            digest: self.digest@,
            data: self.buf@,
            len: self.len as int,
            phase: match self.phase {
                Phase::Start => PhaseView::Start,
                Phase::Rolling(id) => PhaseView::Rolling(id),
                Phase::Writing => PhaseView::Writing,
                Phase::Indexing => PhaseView::Indexing,
                Phase::Over => PhaseView::Over,
            },
        }
    }
}

impl PutView {
    pub open spec fn at(self, phase: PhaseView) -> PutView {
        PutView { phase, ..self }
    }

    pub open spec fn wf(self) -> bool {
        self.phase is Start || self.phase is Rolling ==> self.len == self.data.len()
    }
}

/// Goes on to append the bytes behind those of the active segment.
pub open spec fn append_to_active(v: PutView, st: SegmentStore) -> (
    PutView,
    SegmentStore,
    ActionView,
) {
    (
        PutView { data: Seq::empty(), phase: PhaseView::Writing, ..v },
        st,
        ActionView::Append { segment: st.active.id, off: st.active.size, data: v.data },
    )
}

/// The next state of the page and of the store, and what is to be done. There is none if
/// the event does not answer what was asked, or if there is no number left for a segment
/// or its size.
pub open spec fn put_next(v: PutView, st: SegmentStore, e: EventView) -> Option<
    (PutView, SegmentStore, ActionView),
> {
    match (v.phase, e) {
        (PhaseView::Start, EventView::Begin) => if st.active.size + v.len <= MAX_SEG_BYTES {
            Some(append_to_active(v, st))
        } else if st.active.id < u32::MAX {
            let id = (st.active.id + 1) as u32;
            Some((v.at(PhaseView::Rolling(id)), st, ActionView::OpenSegment(id)))
        } else {
            None
        },
        (PhaseView::Rolling(id), EventView::Opened) => Some(
            append_to_active(v, SegmentStore { active: ActiveSegment { id, size: 0 }, ..st }),
        ),
        (PhaseView::Writing, EventView::Appended) => if st.active.size + v.len <= u64::MAX {
            let at = Location {
                segment: st.active.id,
                off: st.active.size,
                len: v.len as u64 as u32,
            };
            Some(
                (
                    v.at(PhaseView::Indexing),
                    SegmentStore {
                        active: ActiveSegment {
                            size: (st.active.size + v.len) as u64,
                            ..st.active
                        },
                        ..st
                    },
                    ActionView::IndexPut { digest: v.digest, record: record_of(at) },
                ),
            )
        } else {
            None
        },
        (PhaseView::Indexing, EventView::Indexed(existed)) => Some(
            (
                v.at(PhaseView::Over),
                SegmentStore {
                    stats: StatsSnapshot {
                        items: if existed {
                            st.stats.items
                        } else {
                            in_64_bits(st.stats.items + 1) as u64
                        },
                        bytes: in_64_bits(st.stats.bytes + v.len) as u64,
                    },
                    ..st
                },
                ActionView::Done(
                    if existed {
                        PutOutcome::Updated
                    } else {
                        PutOutcome::Inserted
                    },
                ),
            ),
        ),
        (
            PhaseView::Rolling(_) | PhaseView::Writing | PhaseView::Indexing,
            EventView::Failed(t),
        ) => Some((v.at(PhaseView::Over), st, ActionView::Fail("backend error: "@ + t))),
        _ => None,
    }
}

impl SegmentPut {
    pub closed spec fn inv(&self) -> bool {
        self@.wf()
    }

    /// A page for this key, with no bytes yet.
    pub fn new(key: &CacheKey) -> (r: SegmentPut)
        requires
            hashable(key@),
        ensures
            r@ == (PutView {
                digest: key_digest_text(key@),
                data: Seq::empty(),
                len: 0,
                phase: PhaseView::Start,
            }),
            r.inv(),
    {
        SegmentPut { digest: key_digest(key), buf: Vec::new(), len: 0, phase: Phase::Start }
    }

    /// Takes in one more chunk of the page.
    pub fn write(&mut self, chunk: &[u8])
        requires
            old(self).inv(),
            old(self)@.phase is Start,
        ensures
            final(self)@ == (PutView {
                data: old(self)@.data + chunk@,
                len: old(self)@.len + chunk@.len(),
                ..old(self)@
            }),
            final(self).inv(),
    {
        self.buf.extend_from_slice(chunk);
        assert(self.buf@ =~= old(self).buf@ + chunk@);
        self.len = self.buf.len() as u64;
    }

    fn append(&mut self, active: ActiveSegment) -> (r: SegmentAction)
        ensures
            final(self)@ == (PutView {
                data: Seq::empty(),
                phase: PhaseView::Writing,
                ..old(self)@
            }),
            r@ == (ActionView::Append {
                segment: active.id,
                off: active.size,
                data: old(self)@.data,
            }),
    {
        let mut data: Vec<u8> = Vec::new();
        core::mem::swap(&mut data, &mut self.buf);
        self.phase = Phase::Writing;
        assert(self.buf@ =~= Seq::<u8>::empty());
        SegmentAction::Append { segment: active.id, off: active.size, data }
    }

    /// Takes in what came of the last action and says what is to be done next; nothing,
    /// if the event does not answer it or there is no number left for a segment or its size.
    pub fn step(&mut self, store: &mut SegmentStore, event: SegmentEvent) -> (r: Option<
        SegmentAction,
    >)
        requires
            old(self).inv(),
        ensures
            match put_next(old(self)@, *old(store), event@) {
                Some((v, st, a)) => r is Some && r->0@ == a && final(self)@ == v && *final(store)
                    == st,
                None => r is None && *final(store) == *old(store) && final(self)@ == old(self)@.at(
                    PhaseView::Over,
                ),
            },
            final(self).inv(),
    {
        let phase = self.phase;
        self.phase = Phase::Over;
        match event {
            SegmentEvent::Begin => match phase {
                Phase::Start => {
                    if store.active.size <= MAX_SEG_BYTES && self.len <= MAX_SEG_BYTES
                        - store.active.size {
                        Some(self.append(store.active))
                    } else if store.active.id < u32::MAX {
                        let id = store.active.id + 1;
                        self.phase = Phase::Rolling(id);
                        Some(SegmentAction::OpenSegment(id))
                    } else {
                        None
                    }
                },
                _ => None,
            },
            SegmentEvent::Opened => match phase {
                Phase::Rolling(id) => {
                    store.active = ActiveSegment { id, size: 0 };
                    Some(self.append(store.active))
                },
                _ => None,
            },
            SegmentEvent::Appended => match phase {
                Phase::Writing => match store.active.size.checked_add(self.len) {
                    Some(size) => {
                        let at = Location {
                            segment: store.active.id,
                            off: store.active.size,
                            len: self.len as u32,
                        };
                        store.active.size = size;
                        self.phase = Phase::Indexing;
                        Some(
                            SegmentAction::IndexPut {
                                digest: self.digest.clone(),
                                record: encode_location(at),
                            },
                        )
                    },
                    None => None,
                },
                _ => None,
            },
            SegmentEvent::Indexed(existed) => match phase {
                Phase::Indexing => {
                    store.stats.bytes = store.stats.bytes.wrapping_add(self.len);
                    if existed {
                        Some(SegmentAction::Done(PutOutcome::Updated))
                    } else {
                        store.stats.items = store.stats.items.wrapping_add(1);
                        Some(SegmentAction::Done(PutOutcome::Inserted))
                    }
                },
                _ => None,
            },
            SegmentEvent::Failed(t) => match phase {
                Phase::Rolling(_) | Phase::Writing | Phase::Indexing => Some(
                    SegmentAction::Fail(L2Error::Backend(t)),
                ),
                _ => None,
            },
        }
    }
}

/// Outside work that taking a page out waits for.
#[derive(Debug)]
pub enum DeleteAction {
    /// Take the record under the digest out of the index.
    IndexDelete(String),
    Done,
    Fail(L2Error),
}

/// What a [`DeleteAction`] asks for; of an error, its text.
pub enum DeleteActionView {
    IndexDelete(Seq<char>),
    Done,
    Fail(Seq<char>),
}

impl View for DeleteAction {
    type V = DeleteActionView;

    open spec fn view(&self) -> DeleteActionView {
        match self {
            DeleteAction::IndexDelete(d) => DeleteActionView::IndexDelete(d@),
            DeleteAction::Done => DeleteActionView::Done,
            DeleteAction::Fail(e) => DeleteActionView::Fail(e.text()),
        }
    }
}

/// What came of a [`DeleteAction`]; `Begin` comes before the first one.
#[derive(Debug)]
pub enum DeleteEvent {
    Begin,
    /// The record is not in the index; whether it was.
    Removed(bool),
    Failed(String),
}

/// What a [`DeleteEvent`] tells.
pub enum DeleteEventView {
    Begin,
    Removed(bool),
    Failed(Seq<char>),
}

impl View for DeleteEvent {
    type V = DeleteEventView;

    open spec fn view(&self) -> DeleteEventView {
        match self {
            DeleteEvent::Begin => DeleteEventView::Begin,
            DeleteEvent::Removed(b) => DeleteEventView::Removed(*b),
            DeleteEvent::Failed(t) => DeleteEventView::Failed(t@),
        }
    }
}

/// How far taking a page out is.
#[derive(Debug, Clone, Copy, PartialEq, Eq, Structural)]
pub enum DeletePhase {
    Start,
    Removing,
    Over,
}

/// A page that is taken out of the cache on disk.
#[derive(Debug)]
pub struct SegmentDelete {
    digest: String,
    phase: DeletePhase,
}

/// What is known of a page that is taken out of the cache on disk.
pub struct DeleteView {
    pub digest: Seq<char>,
    pub phase: DeletePhase,
}

impl View for SegmentDelete {
    type V = DeleteView;

    closed spec fn view(&self) -> DeleteView {
        DeleteView { digest: self.digest@, phase: self.phase }
    }
}

impl SegmentStore {
    /// The store after a record was taken out of the index, if there was one.
    pub open spec fn after_removal(self, removed: bool) -> SegmentStore {
        SegmentStore {
            stats: StatsSnapshot {
                items: if removed && self.stats.items > 0 {
                    (self.stats.items - 1) as u64
                } else {
                    self.stats.items
                },
                ..self.stats
            },
            ..self
        }
    }
}

/// The next state of the page and of the store, and what is to be done; nothing, if the
/// event does not answer what was asked.
pub open spec fn delete_next(v: DeleteView, st: SegmentStore, e: DeleteEventView) -> Option<
    (DeleteView, SegmentStore, DeleteActionView),
> {
    let over = DeleteView { phase: DeletePhase::Over, ..v };
    match (v.phase, e) {
        (DeletePhase::Start, DeleteEventView::Begin) => Some(
            (
                DeleteView { phase: DeletePhase::Removing, ..v },
                st,
                DeleteActionView::IndexDelete(v.digest),
            ),
        ),
        (DeletePhase::Removing, DeleteEventView::Removed(removed)) => Some(
            (over, st.after_removal(removed), DeleteActionView::Done),
        ),
        (DeletePhase::Removing, DeleteEventView::Failed(t)) => Some(
            (over, st, DeleteActionView::Fail("backend error: "@ + t)),
        ),
        _ => None,
    }
}

impl SegmentDelete {
    /// Begins to take the page under the key out.
    pub fn new(key: &CacheKey) -> (r: SegmentDelete)
        requires
            hashable(key@),
        ensures
            r@ == (DeleteView { digest: key_digest_text(key@), phase: DeletePhase::Start }),
    {
        SegmentDelete { digest: key_digest(key), phase: DeletePhase::Start }
    }

    /// Takes in what came of the last action and says what is to be done next; nothing,
    /// if the event does not answer it.
    pub fn step(&mut self, store: &mut SegmentStore, event: DeleteEvent) -> (r: Option<
        DeleteAction,
    >)
        ensures
            match delete_next(old(self)@, *old(store), event@) {
                Some((v, st, a)) => r is Some && r->0@ == a && final(self)@ == v && *final(store)
                    == st,
                None => r is None && *final(store) == *old(store) && final(self)@ == (DeleteView {
                    phase: DeletePhase::Over,
                    ..old(self)@
                }),
            },
    {
        let phase = self.phase;
        self.phase = DeletePhase::Over;
        match event {
            DeleteEvent::Begin => {
                if phase == DeletePhase::Start {
                    self.phase = DeletePhase::Removing;
                    Some(DeleteAction::IndexDelete(self.digest.clone()))
                } else {
                    None
                }
            },
            DeleteEvent::Removed(removed) => {
                if phase == DeletePhase::Removing {
                    store.count_removed(removed);
                    Some(DeleteAction::Done)
                } else {
                    None
                }
            },
            DeleteEvent::Failed(t) => {
                if phase == DeletePhase::Removing {
                    Some(DeleteAction::Fail(L2Error::Backend(t)))
                } else {
                    None
                }
            },
        }
    }
}

/// Outside work that getting a page waits for.
#[derive(Debug)]
pub enum GetAction {
    /// Look the digest up in the index.
    Index(String),
    /// Read so many bytes of the segment file of this name, from `off` on.
    ReadSegment { name: String, off: u64, len: u32 },
    /// Read the file of the page, at this place below the folder of the store.
    ReadPage(Vec<String>),
    Found(Vec<u8>),
    Absent,
}

/// What a [`GetAction`] asks for.
pub enum GetActionView {
    Index(Seq<char>),
    ReadSegment { name: Seq<char>, off: u64, len: u32 },
    ReadPage(Seq<Seq<char>>),
    Found(Seq<u8>),
    Absent,
}

impl View for GetAction {
    type V = GetActionView;

    open spec fn view(&self) -> GetActionView {
        match self {
            GetAction::Index(d) => GetActionView::Index(d@),
            GetAction::ReadSegment { name, off, len } => GetActionView::ReadSegment {
                name: name@,
                off: *off,
                len: *len,
            },
            GetAction::ReadPage(p) => GetActionView::ReadPage(names_of(p@)),
            GetAction::Found(b) => GetActionView::Found(b@),
            GetAction::Absent => GetActionView::Absent,
        }
    }
}

/// What came of a [`GetAction`]; `Begin` comes before the first one.
#[derive(Debug)]
pub enum GetEvent {
    Begin,
    Record(Vec<u8>),
    NoRecord,
    SegmentRead(Vec<u8>),
    /// The segment cannot be opened, or has no such place.
    SegmentUnavailable,
    /// The segment ends before the bytes do.
    SegmentShort,
    PageRead(Vec<u8>),
    PageMissing,
}

/// What a [`GetEvent`] tells.
pub enum GetEventView {
    Begin,
    Record(Seq<u8>),
    NoRecord,
    SegmentRead(Seq<u8>),
    SegmentUnavailable,
    SegmentShort,
    PageRead(Seq<u8>),
    PageMissing,
}

impl View for GetEvent {
    type V = GetEventView;

    open spec fn view(&self) -> GetEventView {
        match self {
            GetEvent::Begin => GetEventView::Begin,
            GetEvent::Record(b) => GetEventView::Record(b@),
            GetEvent::NoRecord => GetEventView::NoRecord,
            GetEvent::SegmentRead(b) => GetEventView::SegmentRead(b@),
            GetEvent::SegmentUnavailable => GetEventView::SegmentUnavailable,
            GetEvent::SegmentShort => GetEventView::SegmentShort,
            GetEvent::PageRead(b) => GetEventView::PageRead(b@),
            GetEvent::PageMissing => GetEventView::PageMissing,
        }
    }
}

/// How far getting a page is: what is being read.
#[derive(Debug, Clone, Copy, PartialEq, Eq, Structural)]
pub enum GetPhase {
    Start,
    Index,
    Segment,
    Page,
    Over,
}

/// A page that is looked for on disk.
#[derive(Debug)]
pub struct SegmentGet {
    digest: String,
    phase: GetPhase,
}

/// What is known of a page that is looked for on disk.
pub struct GetView {
    pub digest: Seq<char>,
    pub phase: GetPhase,
}

impl View for SegmentGet {
    type V = GetView;

    closed spec fn view(&self) -> GetView {
        GetView { digest: self.digest@, phase: self.phase }
    }
}

/// The next state and what is to be done: the index is asked first; a page that it does
/// not know, or whose segment is too short, may have a file of its own.
pub open spec fn get_next(v: GetView, e: GetEventView) -> Option<(GetView, GetActionView)> {
    let over = GetView { phase: GetPhase::Over, ..v };
    let page = (
        GetView { phase: GetPhase::Page, ..v },
        GetActionView::ReadPage(digest_path_text(v.digest)),
    );
    match (v.phase, e) {
        (GetPhase::Start, GetEventView::Begin) => Some(
            (GetView { phase: GetPhase::Index, ..v }, GetActionView::Index(v.digest)),
        ),
        (GetPhase::Index, GetEventView::Record(record)) => match location_of(record) {
            Some(at) => Some(
                (
                    GetView { phase: GetPhase::Segment, ..v },
                    GetActionView::ReadSegment {
                        name: segment_name_text(at.segment as nat),
                        off: at.off,
                        len: at.len,
                    },
                ),
            ),
            None => Some(page),
        },
        (GetPhase::Index, GetEventView::NoRecord) => Some(page),
        (GetPhase::Segment, GetEventView::SegmentRead(b)) => Some((over, GetActionView::Found(b))),
        (GetPhase::Segment, GetEventView::SegmentUnavailable) => Some(
            (over, GetActionView::Absent),
        ),
        (GetPhase::Segment, GetEventView::SegmentShort) => Some(page),
        (GetPhase::Page, GetEventView::PageRead(b)) => Some((over, GetActionView::Found(b))),
        (GetPhase::Page, GetEventView::PageMissing) => Some((over, GetActionView::Absent)),
        _ => None,
    }
}

impl SegmentGet {
    /// The digest can be cut into the place of a page file.
    pub closed spec fn inv(&self) -> bool {
        vstd::utf8::is_ascii_chars(self.digest@)
    }

    /// Begins to look for the page under the key.
    pub fn new(key: &CacheKey) -> (r: SegmentGet)
        requires
            hashable(key@),
        ensures
            r@ == (GetView { digest: key_digest_text(key@), phase: GetPhase::Start }),
            r.inv(),
    {
        SegmentGet { digest: key_digest(key), phase: GetPhase::Start }
    }

    fn read_page(&mut self) -> (r: GetAction)
        requires
            old(self).inv(),
        ensures
            final(self)@ == (GetView { phase: GetPhase::Page, ..old(self)@ }),
            r@ == GetActionView::ReadPage(digest_path_text(old(self)@.digest)),
            final(self).inv(),
    {
        self.phase = GetPhase::Page;
        let place = digest::digest_to_path(self.digest.as_str());
        assert(names_of(place@) =~= digest_path_text(self.digest@));
        GetAction::ReadPage(place)
    }

    /// Takes in what came of the last action and says what is to be done next; nothing,
    /// if the event does not answer it.
    pub fn step(&mut self, event: GetEvent) -> (r: Option<GetAction>)
        requires
            old(self).inv(),
        ensures
            match get_next(old(self)@, event@) {
                Some((v, a)) => r is Some && r->0@ == a && final(self)@ == v,
                None => r is None && final(self)@ == (GetView {
                    phase: GetPhase::Over,
                    ..old(self)@
                }),
            },
            final(self).inv(),
    {
        let phase = self.phase;
        self.phase = GetPhase::Over;
        match event {
            GetEvent::Begin => {
                if phase == GetPhase::Start {
                    self.phase = GetPhase::Index;
                    Some(GetAction::Index(self.digest.clone()))
                } else {
                    None
                }
            },
            GetEvent::Record(record) => {
                if phase == GetPhase::Index {
                    match decode_location(record.as_slice()) {
                        Some(at) => {
                            self.phase = GetPhase::Segment;
                            Some(
                                GetAction::ReadSegment {
                                    name: segment_name(at.segment),
                                    off: at.off,
                                    len: at.len,
                                },
                            )
                        },
                        None => Some(self.read_page()),
                    }
                } else {
                    None
                }
            },
            GetEvent::NoRecord => {
                if phase == GetPhase::Index {
                    Some(self.read_page())
                } else {
                    None
                }
            },
            GetEvent::SegmentRead(b) => {
                if phase == GetPhase::Segment {
                    Some(GetAction::Found(b))
                } else {
                    None
                }
            },
            GetEvent::SegmentUnavailable => {
                if phase == GetPhase::Segment {
                    Some(GetAction::Absent)
                } else {
                    None
                }
            },
            GetEvent::SegmentShort => {
                if phase == GetPhase::Segment {
                    Some(self.read_page())
                } else {
                    None
                }
            },
            GetEvent::PageRead(b) => {
                if phase == GetPhase::Page {
                    Some(GetAction::Found(b))
                } else {
                    None
                }
            },
            GetEvent::PageMissing => {
                if phase == GetPhase::Page {
                    Some(GetAction::Absent)
                } else {
                    None
                }
            },
        }
    }
}

/// What is on disk: the segments by their numbers, the index, and the files of single
/// pages by their places.
pub struct Disk {
    pub segments: Map<u32, Seq<u8>>,
    pub index: Map<Seq<char>, Seq<u8>>,
    pub pages: Map<Seq<Seq<char>>, Seq<u8>>,
}

impl Disk {
    /// The location that the index tells for a digest.
    pub open spec fn location(self, digest: Seq<char>) -> Option<Location> {
        if self.index.contains_key(digest) {
            location_of(self.index[digest])
        } else {
            None
        }
    }

    /// There are bytes at the location.
    pub open spec fn has(self, at: Location) -> bool {
        self.segments.contains_key(at.segment) && at.off + at.len
            <= self.segments[at.segment].len()
    }

    /// The bytes at the location.
    pub open spec fn bytes(self, at: Location) -> Seq<u8> {
        self.segments[at.segment].subrange(at.off as int, at.off + at.len)
    }

    /// The page under a digest: where the index says, else in a file of its own.
    pub open spec fn page(self, digest: Seq<char>) -> Option<Seq<u8>> {
        match self.location(digest) {
            Some(at) => Some(self.bytes(at)),
            None => if self.pages.contains_key(digest_path_text(digest)) {
                Some(self.pages[digest_path_text(digest)])
            } else {
                None
            },
        }
    }

    /// What the index tells is there.
    pub open spec fn indexed(self) -> bool {
        forall|digest: Seq<char>|
            match #[trigger] self.location(digest) {
                Some(at) => self.has(at),
                None => true,
            }
    }

    /// The active segment is the last one and has the size that is kept for it, and what
    /// the index tells is there.
    pub open spec fn sound(self, st: SegmentStore) -> bool {
        &&& self.indexed()
        &&& self.segments.contains_key(st.active.id)
        &&& self.segments[st.active.id].len() == st.active.size
        &&& forall|id: u32| #[trigger] self.segments.contains_key(id) ==> id <= st.active.id
    }

    /// Without the index record of a digest.
    pub open spec fn without(self, digest: Seq<char>) -> Disk {
        Disk { index: self.index.remove(digest), ..self }
    }
}

/// The event is a true answer to what a get asks of the disk.
pub open spec fn get_answers(d: Disk, a: GetActionView, e: GetEventView) -> bool {
    match a {
        GetActionView::Index(digest) => e == if d.index.contains_key(digest) {
            GetEventView::Record(d.index[digest])
        } else {
            GetEventView::NoRecord
        },
        GetActionView::ReadSegment { name, off, len } => exists|id: u32|
            #![trigger segment_name_text(id as nat)]
            {
                let at = Location { segment: id, off, len };
                &&& name == segment_name_text(id as nat)
                &&& d.has(at) ==> e == GetEventView::SegmentRead(d.bytes(at))
                &&& !d.has(at) ==> e is SegmentUnavailable || e is SegmentShort
            },
        GetActionView::ReadPage(place) => e == if d.pages.contains_key(place) {
            GetEventView::PageRead(d.pages[place])
        } else {
            GetEventView::PageMissing
        },
        GetActionView::Found(_) | GetActionView::Absent => false,
    }
}

/// Where a get is after these events, and what it then asks for.
pub open spec fn get_run(v: GetView, events: Seq<GetEventView>) -> Option<(GetView, GetActionView)>
    decreases events.len(),
{
    if events.len() == 0 {
        None
    } else if events.len() == 1 {
        get_next(v, events[0])
    } else {
        match get_run(v, events.drop_last()) {
            Some((u, _)) => get_next(u, events.last()),
            None => None,
        }
    }
}

/// Every event behind the first is a true answer to what was asked before it.
pub open spec fn get_answered(v: GetView, d: Disk, events: Seq<GetEventView>) -> bool {
    &&& events.len() > 0
    &&& events[0] is Begin
    &&& forall|i: int|
        #![trigger events[i]]
        0 < i < events.len() ==> match get_run(v, events.take(i)) {
            Some((_, a)) => get_answers(d, a, events[i]),
            None => false,
        }
}

spec fn get_on_course(v: GetView, a: GetActionView, d: Disk) -> bool {
    match v.phase {
        GetPhase::Start => false,
        GetPhase::Index => a == GetActionView::Index(v.digest),
        GetPhase::Segment => match d.location(v.digest) {
            Some(at) => a == GetActionView::ReadSegment {
                name: segment_name_text(at.segment as nat),
                off: at.off,
                len: at.len,
            },
            None => false,
        },
        GetPhase::Page => d.location(v.digest) is None && a == GetActionView::ReadPage(
            digest_path_text(v.digest),
        ),
        GetPhase::Over => a == match d.page(v.digest) {
            Some(b) => GetActionView::Found(b),
            None => GetActionView::Absent,
        },
    }
}

proof fn lemma_get(v: GetView, d: Disk, events: Seq<GetEventView>)
    requires
        v.phase == GetPhase::Start,
        d.indexed(),
        get_answered(v, d, events),
    ensures
        match get_run(v, events) {
            Some((u, a)) => u.digest == v.digest && get_on_course(u, a, d),
            None => false,
        },
    decreases events.len(),
{
    if events.len() > 1 {
        let before = events.drop_last();
        let n = events.len() - 1;
        assert(events.take(n as int) =~= before);
        assert(get_answered(v, d, before)) by {
            assert forall|i: int|
                #![trigger before[i]]
                0 < i < before.len() implies match get_run(v, before.take(i)) {
                Some((_, a)) => get_answers(d, a, before[i]),
                None => false,
            } by {
                assert(before.take(i) =~= events.take(i));
                assert(events[i] == before[i]);
            }
        }
        lemma_get(v, d, before);
        assert(events[n as int] == events.last());
        let (u, a) = get_run(v, before)->0;
        let e = events.last();
        assert(get_answers(d, a, e));
        if u.phase == GetPhase::Segment {
            let at = d.location(u.digest)->0;
            assert(d.has(at));
            let id = choose|id: u32|
                #![trigger segment_name_text(id as nat)]
                {
                    let x = Location { segment: id, off: at.off, len: at.len };
                    &&& segment_name_text(at.segment as nat) == segment_name_text(id as nat)
                    &&& d.has(x) ==> e == GetEventView::SegmentRead(d.bytes(x))
                    &&& !d.has(x) ==> e is SegmentUnavailable || e is SegmentShort
                };
            law_segment_name(at.segment);
            law_segment_name(id);
            assert(id == at.segment);
            assert(Location { segment: id, off: at.off, len: at.len } == at);
        }
    }
}

/// A get from a disk that has what its index tells goes on to its end, and then finds
/// the page under the digest, or tells that there is none.
pub proof fn law_get(v: GetView, d: Disk, events: Seq<GetEventView>)
    requires
        v.phase == GetPhase::Start,
        d.indexed(),
        get_answered(v, d, events),
    ensures
        match get_run(v, events) {
            Some((_, a)) => {
                &&& a matches GetActionView::Found(b) ==> d.page(v.digest) == Some(b)
                &&& a is Absent ==> d.page(v.digest) is None
            },
            None => false,
        },
{
    lemma_get(v, d, events);
}

/// The event is a true answer to what a delete asks of the disk `d`, and leaves the disk
/// `d2`; work that fails leaves the disk as it was.
pub open spec fn delete_answers(
    d: Disk,
    a: DeleteActionView,
    e: DeleteEventView,
    d2: Disk,
) -> bool {
    match a {
        DeleteActionView::IndexDelete(digest) => {
            ||| e is Failed && d2 == d
            ||| e == DeleteEventView::Removed(d.index.contains_key(digest)) && d2 == d.without(
                digest,
            )
        },
        DeleteActionView::Done | DeleteActionView::Fail(_) => false,
    }
}

/// A delete on a sound disk asks for the record of its digest and then is over, and leaves
/// the disk sound. When it is done, the page is found only if it has a file of its own, and
/// one page less is counted if there was a record; the bytes stay. The other pages stay,
/// and a delete that fails changes nothing, as does a second delete.
pub proof fn law_delete(
    v: DeleteView,
    st: SegmentStore,
    d: Disk,
    e: DeleteEventView,
    d2: Disk,
    other: Seq<char>,
)
    requires
        v.phase == DeletePhase::Start,
        d.sound(st),
        other != v.digest,
        delete_answers(d, DeleteActionView::IndexDelete(v.digest), e, d2),
    ensures
        match delete_next(v, st, DeleteEventView::Begin) {
            Some((u, st1, a)) => {
                &&& st1 == st
                &&& a == DeleteActionView::IndexDelete(v.digest)
                &&& match delete_next(u, st1, e) {
                    Some((_, st2, b)) => {
                        &&& d2.sound(st2)
                        &&& d2.page(other) == d.page(other)
                        &&& st2.stats.bytes == st.stats.bytes
                        &&& b is Done ==> {
                            &&& d2.page(v.digest) == if d.pages.contains_key(
                                digest_path_text(v.digest),
                            ) {
                                Some(d.pages[digest_path_text(v.digest)])
                            } else {
                                None
                            }
                            &&& st2.stats.items == if d.index.contains_key(v.digest)
                                && st.stats.items > 0 {
                                st.stats.items - 1
                            } else {
                                st.stats.items as int
                            }
                            &&& !d.index.contains_key(v.digest) ==> d2 == d && st2 == st
                            &&& !d2.index.contains_key(v.digest)
                        }
                        &&& !(b is Done) ==> b is Fail && e is Failed && d2 == d && st2 == st
                    },
                    None => false,
                }
            },
            None => false,
        },
{
    assert forall|x: Seq<char>|
        match #[trigger] d2.location(x) {
            Some(at) => d2.has(at),
            None => true,
        } by {
        if x != v.digest || e is Failed {
            assert(d2.location(x) == d.location(x));
        }
    }
    if !d.index.contains_key(v.digest) {
        assert(d.index.remove(v.digest) =~= d.index);
    }
}

/// The event is a true answer to what a put asks of the disk `d`, and leaves the disk
/// `d2`; work that fails leaves the disk as it was.
pub open spec fn put_answers(d: Disk, a: ActionView, e: EventView, d2: Disk) -> bool {
    match a {
        ActionView::OpenSegment(id) => {
            ||| e is Failed && d2 == d
            ||| e is Opened && d2 == Disk {
                segments: if d.segments.contains_key(id) {
                    d.segments
                } else {
                    d.segments.insert(id, Seq::empty())
                },
                ..d
            }
        },
        ActionView::Append { segment, data, .. } => {
            ||| e is Failed && d2 == d
            ||| e is Appended && d.segments.contains_key(segment) && d2 == Disk {
                segments: d.segments.insert(segment, d.segments[segment] + data),
                ..d
            }
        },
        ActionView::IndexPut { digest, record } => {
            ||| e is Failed && d2 == d
            ||| e == EventView::Indexed(d.index.contains_key(digest)) && d2 == Disk {
                index: d.index.insert(digest, record),
                ..d
            }
        },
        ActionView::Done(_) | ActionView::Fail(_) => false,
    }
}

/// Where a put is after these events, what the store then keeps, and what it asks for.
pub open spec fn put_run(v: PutView, st: SegmentStore, events: Seq<EventView>) -> Option<
    (PutView, SegmentStore, ActionView),
>
    decreases events.len(),
{
    if events.len() == 0 {
        None
    } else if events.len() == 1 {
        put_next(v, st, events[0])
    } else {
        match put_run(v, st, events.drop_last()) {
            Some((u, st2, _)) => put_next(u, st2, events.last()),
            None => None,
        }
    }
}

/// Every event behind the first is a true answer to what was asked before it; `disks`
/// are the disks after each event.
pub open spec fn put_answered(
    v: PutView,
    st: SegmentStore,
    events: Seq<EventView>,
    disks: Seq<Disk>,
) -> bool {
    &&& events.len() > 0
    &&& events[0] is Begin
    &&& disks.len() == events.len()
    &&& forall|i: int|
        #![trigger events[i]]
        0 < i < events.len() ==> match put_run(v, st, events.take(i)) {
            Some((_, _, a)) => put_answers(disks[i - 1], a, events[i], disks[i]),
            None => false,
        }
}

/// No byte of a segment of `d` is lost or changed in `d2`.
spec fn grown(d: Disk, d2: Disk) -> bool {
    forall|id: u32| #[trigger]
        d.segments.contains_key(id) ==> d2.segments.contains_key(id) && d.segments[id].len()
            <= d2.segments[id].len() && d2.segments[id].take(d.segments[id].len() as int)
            == d.segments[id]
}

proof fn lemma_grown(d: Disk, d2: Disk, at: Location)
    requires
        grown(d, d2),
        d.has(at),
    ensures
        d2.has(at),
        d2.bytes(at) == d.bytes(at),
{
    let a = d.segments[at.segment];
    let b = d2.segments[at.segment];
    assert(b.take(a.len() as int) == a);
    assert(b.subrange(at.off as int, at.off + at.len) =~= a.subrange(
        at.off as int,
        at.off + at.len,
    ));
}

proof fn lemma_same_page(d: Disk, d2: Disk, digest: Seq<char>)
    requires
        d.indexed(),
        grown(d, d2),
        d2.pages == d.pages,
        d2.location(digest) == d.location(digest),
    ensures
        d2.page(digest) == d.page(digest),
{
    if let Some(at) = d.location(digest) {
        lemma_grown(d, d2, at);
    }
}

/// What holds at every point of a put into a sound disk.
#[verifier::opaque]
spec fn put_on_course(
    v: PutView,
    st: SegmentStore,
    a: ActionView,
    d: Disk,
    st0: SegmentStore,
    d0: Disk,
    value: Seq<u8>,
) -> bool {
    &&& d.sound(st)
    &&& d0.indexed()
    &&& grown(d0, d)
    &&& d.pages == d0.pages
    &&& v.len == value.len()
    &&& value.len() <= u32::MAX
    &&& match v.phase {
        PhaseView::Start => false,
        PhaseView::Rolling(id) => {
            &&& d.index == d0.index
            &&& st == st0
            &&& id == st.active.id + 1
            &&& v.data == value
            &&& a == ActionView::OpenSegment(id)
        },
        PhaseView::Writing => {
            &&& d.index == d0.index
            &&& st.stats == st0.stats
            &&& st.active.size + v.len <= MAX_SEG_BYTES || st.active.size == 0
            &&& a == ActionView::Append {
                segment: st.active.id,
                off: st.active.size,
                data: value,
            }
        },
        PhaseView::Indexing => {
            &&& d.index == d0.index
            &&& st.stats == st0.stats
            &&& match a {
                ActionView::IndexPut { digest, record } => {
                    &&& digest == v.digest
                    &&& record_of(location_of(record)->0) == record
                    &&& location_of(record) is Some
                    &&& d.has(location_of(record)->0)
                    &&& d.bytes(location_of(record)->0) == value
                },
                _ => false,
            }
        },
        PhaseView::Over => match a {
            ActionView::Done(outcome) => {
                &&& forall|g: Seq<char>| g != v.digest ==> #[trigger] d.location(g) == d0.location(g)
                &&& d.page(v.digest) == Some(value)
                &&& outcome == if d0.index.contains_key(v.digest) {
                    PutOutcome::Updated
                } else {
                    PutOutcome::Inserted
                }
                &&& st.stats.bytes == in_64_bits(st0.stats.bytes + value.len())
                &&& st.stats.items == if outcome is Inserted {
                    in_64_bits(st0.stats.items + 1)
                } else {
                    st0.stats.items as int
                }
            },
            ActionView::Fail(_) => d.index == d0.index && st.stats == st0.stats,
            _ => false,
        },
    }
}

#[verifier::rlimit(30)]
#[verifier::spinoff_prover]
proof fn lemma_put_step(
    v: PutView,
    st: SegmentStore,
    a: ActionView,
    d: Disk,
    e: EventView,
    d2: Disk,
    st0: SegmentStore,
    d0: Disk,
    value: Seq<u8>,
)
    requires
        put_on_course(v, st, a, d, st0, d0, value),
        put_answers(d, a, e, d2),
    ensures
        match put_next(v, st, e) {
            Some((v2, st2, a2)) => v2.digest == v.digest && put_on_course(
                v2,
                st2,
                a2,
                d2,
                st0,
                d0,
                value,
            ),
            None => false,
        },
{
    reveal(put_on_course);
    match a {
        ActionView::OpenSegment(id) => {
            if e is Opened {
                assert(!d.segments.contains_key(id));
                assert forall|x: u32| #[trigger] d0.segments.contains_key(x) implies d2.segments.contains_key(
                    x,
                ) && d0.segments[x].len() <= d2.segments[x].len() && d2.segments[x].take(
                    d0.segments[x].len() as int,
                ) == d0.segments[x] by {
                    assert(d.segments.contains_key(x));
                }
                assert(grown(d, d2)) by {
                    assert forall|x: u32| #[trigger] d.segments.contains_key(x) implies d2.segments[x].take(
                        d.segments[x].len() as int,
                    ) == d.segments[x] by {
                        assert(d.segments[x].take(d.segments[x].len() as int) =~= d.segments[x]);
                    }
                }
                assert forall|g: Seq<char>|
                    match #[trigger] d2.location(g) {
                        Some(at) => d2.has(at),
                        None => true,
                    } by {
                    assert(d2.location(g) == d.location(g));
                    if let Some(at) = d.location(g) {
                        lemma_grown(d, d2, at);
                    }
                }
            }
        },
        ActionView::Append { segment, off, data } => {
            if e is Appended {
                let old_seg = d.segments[segment];
                let new_seg = d2.segments[segment];
                assert(new_seg.take(old_seg.len() as int) =~= old_seg);
                assert(grown(d, d2)) by {
                    assert forall|x: u32| #[trigger] d.segments.contains_key(x) implies d2.segments[x].take(
                        d.segments[x].len() as int,
                    ) == d.segments[x] by {
                        assert(d.segments[x].take(d.segments[x].len() as int) =~= d.segments[x]);
                    }
                }
                assert(grown(d0, d2)) by {
                    assert forall|x: u32| #[trigger] d0.segments.contains_key(x) implies d2.segments.contains_key(
                        x,
                    ) && d0.segments[x].len() <= d2.segments[x].len() && d2.segments[x].take(
                        d0.segments[x].len() as int,
                    ) == d0.segments[x] by {
                        assert(d.segments.contains_key(x));
                        let n = d0.segments[x].len() as int;
                        assert(d.segments[x].take(n) == d0.segments[x]);
                        assert(d2.segments[x].take(n) =~= d2.segments[x].take(
                            d.segments[x].len() as int,
                        ).take(n));
                    }
                }
                assert forall|g: Seq<char>|
                    match #[trigger] d2.location(g) {
                        Some(at) => d2.has(at),
                        None => true,
                    } by {
                    assert(d2.location(g) == d.location(g));
                    if let Some(at) = d.location(g) {
                        lemma_grown(d, d2, at);
                    }
                }
                let at = Location { segment, off, len: v.len as u64 as u32 };
                assert(at.len == value.len());
                law_record(at);
                assert(d2.bytes(at) =~= value);
            }
        },
        ActionView::IndexPut { digest, record } => {
            if e is Indexed {
                assert forall|g: Seq<char>| g != v.digest implies #[trigger] d2.location(g)
                    == d0.location(g) by {
                    assert(d.location(g) == d0.location(g));
                }
                assert(d2.location(digest) == location_of(record));
                assert forall|g: Seq<char>|
                    match #[trigger] d2.location(g) {
                        Some(at) => d2.has(at),
                        None => true,
                    } by {
                    if g != digest {
                        assert(d2.location(g) == d.location(g));
                        if let Some(at) = d.location(g) {
                            assert(d.has(at));
                        }
                    }
                }
            }
        },
        _ => {},
    }
}

proof fn lemma_put_begin(v: PutView, st: SegmentStore, d: Disk)
    requires
        put_ready(v, st, d),
    ensures
        match put_next(v, st, EventView::Begin) {
            Some((u, st2, a)) => u.digest == v.digest && put_on_course(
                u,
                st2,
                a,
                d,
                st,
                d,
                v.data,
            ),
            None => false,
        },
{
    reveal(put_on_course);
    assert(grown(d, d)) by {
        assert forall|x: u32| #[trigger] d.segments.contains_key(x) implies d.segments[x].take(
            d.segments[x].len() as int,
        ) == d.segments[x] by {
            assert(d.segments[x].take(d.segments[x].len() as int) =~= d.segments[x]);
        }
    }
}

#[verifier::rlimit(40)]
#[verifier::spinoff_prover]
proof fn lemma_put_run(
    v: PutView,
    st: SegmentStore,
    events: Seq<EventView>,
    disks: Seq<Disk>,
)
    requires
        put_ready(v, st, disks[0]),
        put_answered(v, st, events, disks),
    ensures
        match put_run(v, st, events) {
            Some((u, st2, a)) => u.digest == v.digest && put_on_course(
                u,
                st2,
                a,
                disks.last(),
                st,
                disks[0],
                v.data,
            ),
            None => false,
        },
    decreases events.len(),
{
    if events.len() == 1 {
        lemma_put_begin(v, st, disks[0]);
    } else {
        let before = events.drop_last();
        let n = events.len() - 1;
        assert(events.take(n as int) =~= before);
        assert(put_answered(v, st, before, disks.drop_last())) by {
            assert forall|i: int|
                #![trigger before[i]]
                0 < i < before.len() implies match put_run(v, st, before.take(i)) {
                Some((_, _, a)) => put_answers(
                    disks.drop_last()[i - 1],
                    a,
                    before[i],
                    disks.drop_last()[i],
                ),
                None => false,
            } by {
                assert(before.take(i) =~= events.take(i));
                assert(events[i] == before[i]);
            }
        }
        lemma_put_run(v, st, before, disks.drop_last());
        assert(events[n as int] == events.last());
        let (u, st2, a) = put_run(v, st, before)->0;
        assert(put_run(v, st, events) == put_next(u, st2, events.last()));
        assert(put_answers(disks[n - 1], a, events.last(), disks[n as int]));
        lemma_put_step(
            u,
            st2,
            a,
            disks[n - 1],
            events.last(),
            disks[n as int],
            st,
            disks[0],
            v.data,
        );
    }
}

/// No segment grows beyond its bound, but for one that has a single page.
pub proof fn law_segment_bound(v: PutView, st: SegmentStore, e: EventView)
    requires
        v.wf(),
    ensures
        match put_next(v, st, e) {
            Some((_, _, ActionView::Append { off, data, .. })) => off + data.len() <= MAX_SEG_BYTES
                || off == 0,
            _ => true,
        },
{
}

/// The page has all its bytes, its length can be told by an index record, and it fits into
/// the active segment, or there is a number left for the next one.
pub open spec fn put_ready(v: PutView, st: SegmentStore, d: Disk) -> bool {
    &&& v.phase is Start
    &&& v.wf()
    &&& v.len <= u32::MAX
    &&& st.active.size + v.len <= MAX_SEG_BYTES || st.active.id < u32::MAX
    &&& d.sound(st)
}

/// A put into a sound disk goes on to its end and leaves the disk sound. When it is done,
/// the page is found under its digest, every other page is as it was, and the page and
/// its bytes are counted, a page whose digest was in the index as an update. A put that
/// fails changes no page.
pub proof fn law_put(
    v: PutView,
    st: SegmentStore,
    events: Seq<EventView>,
    disks: Seq<Disk>,
    other: Seq<char>,
)
    requires
        put_ready(v, st, disks[0]),
        put_answered(v, st, events, disks),
        other != v.digest,
    ensures
        match put_run(v, st, events) {
            Some((_, st2, a)) => {
                let (d0, d) = (disks[0], disks.last());
                &&& d.sound(st2)
                &&& d.page(other) == d0.page(other)
                &&& a matches ActionView::Done(outcome) ==> {
                    &&& d.page(v.digest) == Some(v.data)
                    &&& outcome is Updated <==> d0.index.contains_key(v.digest)
                    &&& st2.stats.bytes == in_64_bits(st.stats.bytes + v.len)
                    &&& st2.stats.items == if outcome is Inserted {
                        in_64_bits(st.stats.items + 1)
                    } else {
                        st.stats.items as int
                    }
                }
                &&& !(a is Done) ==> d.page(v.digest) == d0.page(v.digest) && st2.stats == st.stats
            },
            None => false,
        },
{
    lemma_put_run(v, st, events, disks);
    reveal(put_on_course);
    let (u, st2, a) = put_run(v, st, events)->0;
    let (d0, d) = (disks[0], disks.last());
    assert(d.location(other) == d0.location(other));
    lemma_same_page(d0, d, other);
    if !(a is Done) {
        assert(d.location(v.digest) == d0.location(v.digest));
        lemma_same_page(d0, d, v.digest);
    }
}

proof fn lemma_last_segment_is_one(names: Seq<Seq<char>>)
    ensures
        last_segment_of(names) == 1 || exists|i: int|
            0 <= i < names.len() && segment_id_of(#[trigger] names[i]) == Some(
                last_segment_of(names),
            ),
    decreases names.len(),
{
    if names.len() > 0 {
        let d = names.drop_last();
        lemma_last_segment_is_one(d);
        if last_segment_of(names) == last_segment_of(d) {
            if last_segment_of(d) != 1 {
                let i = choose|i: int|
                    0 <= i < d.len() && segment_id_of(#[trigger] d[i]) == Some(last_segment_of(d));
                assert(names[i] == d[i]);
            }
        } else {
            assert(names[names.len() - 1] == names.last());
        }
    }
}

/// A store that is opened again over the same disk goes on where it was: with the names
/// of the files in its folder, the segment to append to is the active one, and with its
/// size the disk is as sound as before, whatever is counted.
pub proof fn law_reopen(
    d: Disk,
    st: SegmentStore,
    names: Seq<Seq<char>>,
    stats: StatsSnapshot,
)
    requires
        d.sound(st),
        st.active.id >= 1,
        forall|id: u32| #[trigger]
            d.segments.contains_key(id) ==> names.contains(segment_name_text(id as nat)),
        forall|i: int|
            0 <= i < names.len() ==> match segment_id_of(#[trigger] names[i]) {
                Some(id) => d.segments.contains_key(id as u32),
                None => true,
            },
    ensures
        last_segment_of(names) == st.active.id,
        d.sound(
            SegmentStore {
                active: ActiveSegment {
                    id: last_segment_of(names) as u32,
                    size: d.segments[last_segment_of(names) as u32].len() as u64,
                },
                stats,
            },
        ),
{
    let id = st.active.id;
    law_last_segment(names);
    lemma_last_segment_is_one(names);
    law_segment_name(id);
    assert(names.contains(segment_name_text(id as nat)));
    let k = choose|k: int| 0 <= k < names.len() && names[k] == segment_name_text(id as nat);
    assert(segment_id_of(names[k]) == Some(id as nat));
    if last_segment_of(names) != 1 {
        let i = choose|i: int|
            0 <= i < names.len() && segment_id_of(#[trigger] names[i]) == Some(
                last_segment_of(names),
            );
        assert(d.segments.contains_key(last_segment_of(names) as u32));
    }
}

/// A segment file is named by `data-`, its number in at least five digits, and `.seg`; and a
/// file is a segment, with the number that stands there, if and only if it is so named.
pub proof fn law_segment_names(id: nat, name: Seq<char>, digits: Seq<char>)
    ensures
        ({
            let s = segment_name_text(id);
            &&& s.len() >= 14
            &&& s.take(5) == "data-"@
            &&& s.skip(s.len() - 4) == ".seg"@
            &&& text::parse_unsigned(s.subrange(5, s.len() - 4), id) == Some(id)
        }),
        segment_id_of("data-"@ + digits + ".seg"@) == text::parse_unsigned(digits, u32::MAX as nat),
        segment_id_of(name) matches Some(n) ==> {
            &&& name.len() > 9
            &&& name == "data-"@ + name.subrange(5, name.len() - 4) + ".seg"@
            &&& text::parse_unsigned(name.subrange(5, name.len() - 4), u32::MAX as nat) == Some(n)
        },
{
    reveal_strlit("data-");
    reveal_strlit(".seg");
    let s = segment_name_text(id);
    let d = text::padded_decimal(id, 5);
    text::law_parse_decimal(id, 5, id);
    text::law_padded_decimal(id, 5);
    assert(s.take(5) =~= "data-"@);
    assert(s.skip(s.len() - 4) =~= ".seg"@);
    assert(s.subrange(5, s.len() - 4) =~= d);
    let t = "data-"@ + digits + ".seg"@;
    assert(t.take(5) =~= "data-"@);
    assert(t.skip(t.len() - 4) =~= ".seg"@);
    assert(t.subrange(5, t.len() - 4) =~= digits);
    if segment_id_of(name) is Some {
        assert(name =~= name.take(5) + name.subrange(5, name.len() - 4) + name.skip(name.len() - 4));
        text::law_parse_refuses(name.subrange(5, name.len() - 4), 0, u32::MAX as nat);
    }
}

/// The last segment is the first, or has the number of one of the files.
pub proof fn law_last_segment_is_one(names: Seq<Seq<char>>)
    ensures
        last_segment_of(names) == 1 || exists|i: int|
            0 <= i < names.len() && segment_id_of(#[trigger] names[i]) == Some(
                last_segment_of(names),
            ),
{
    lemma_last_segment_is_one(names);
}

/// An index record has the number of the segment in its first four bytes, the offset in the
/// next eight and the length in the last four, of each the lowest byte first; other lengths
/// are no records.
pub proof fn law_record_bytes(at: Location, record: Seq<u8>)
    ensures
        ({
            let r = record_of(at);
            &&& r.len() == 16
            &&& from_le_bytes(r.subrange(0, 4)) == at.segment
            &&& from_le_bytes(r.subrange(4, 12)) == at.off
            &&& from_le_bytes(r.subrange(12, 16)) == at.len
        }),
        record.len() != 16 <==> location_of(record) is None,
{
    let r = record_of(at);
    digest::lemma_byte_ranges();
    digest::law_le_bytes(at.segment as nat, 4);
    digest::law_le_bytes(at.off as nat, 8);
    digest::law_le_bytes(at.len as nat, 4);
    assert(r.subrange(0, 4) =~= le_bytes(at.segment as nat, 4));
    assert(r.subrange(4, 12) =~= le_bytes(at.off as nat, 8));
    assert(r.subrange(12, 16) =~= le_bytes(at.len as nat, 4));
}

/// A put goes its way: a page that fits into the active segment, up to 1 GiB, is appended to
/// it, and any other to the next one, from its beginning on; then the index is told where it
/// lies, and that it is there. Work that fails ends the put with its error.
pub proof fn law_put_goes_on(v: PutView, st: SegmentStore, id: u32, existed: bool, t: Seq<char>)
    ensures
        v.phase is Start && st.active.size + v.len <= 1_073_741_824 ==> {
            &&& put_next(v, st, EventView::Begin) matches Some((u, st2, a))
            &&& u.phase is Writing
            &&& st2 == st
            &&& a == (ActionView::Append {
                segment: st.active.id,
                off: st.active.size,
                data: v.data,
            })
        },
        v.phase is Start && st.active.size + v.len > 1_073_741_824 && st.active.id < u32::MAX ==> {
            &&& put_next(v, st, EventView::Begin) matches Some((u, st2, ActionView::OpenSegment(n)))
            &&& u.phase == PhaseView::Rolling(n)
            &&& u.data == v.data
            &&& n == st.active.id + 1
            &&& st2 == st
        },
        v.phase == PhaseView::Rolling(id) ==> {
            &&& put_next(v, st, EventView::Opened) matches Some((u, st2, a))
            &&& u.phase is Writing
            &&& st2.active.id == id
            &&& st2.active.size == 0
            &&& st2.stats == st.stats
            &&& a == (ActionView::Append { segment: id, off: 0, data: v.data })
        },
        v.phase is Writing && 0 <= v.len <= u32::MAX && st.active.size + v.len <= u64::MAX ==> {
            &&& put_next(v, st, EventView::Appended) matches Some((
                u,
                st2,
                ActionView::IndexPut { digest, record },
            ))
            &&& u.phase is Indexing
            &&& u.len == v.len
            &&& st2.active.id == st.active.id
            &&& st2.active.size == st.active.size + v.len
            &&& st2.stats == st.stats
            &&& digest == v.digest
            &&& location_of(record) matches Some(at)
            &&& at.segment == st.active.id
            &&& at.off == st.active.size
            &&& at.len == v.len
        },
        v.phase is Indexing ==> {
            &&& put_next(v, st, EventView::Indexed(existed)) matches Some((u, st2, a))
            &&& u.phase is Over
            &&& a == ActionView::Done(
                if existed {
                    PutOutcome::Updated
                } else {
                    PutOutcome::Inserted
                },
            )
            &&& st2.active == st.active
            &&& 0 <= v.len && st.stats.bytes + v.len <= u64::MAX ==> st2.stats.bytes
                == st.stats.bytes + v.len
            &&& existed ==> st2.stats.items == st.stats.items
            &&& !existed && st.stats.items < u64::MAX ==> st2.stats.items == st.stats.items + 1
        },
        v.phase is Rolling || v.phase is Writing || v.phase is Indexing ==> {
            &&& put_next(v, st, EventView::Failed(t)) matches Some((_, st2, a))
            &&& a == ActionView::Fail("backend error: "@ + t)
            &&& st2 == st
        },
{
    if 0 <= v.len <= u32::MAX {
        law_record(Location { segment: st.active.id, off: st.active.size, len: v.len as u64 as u32 });
    }
}

/// A put fails only when work failed.
pub proof fn law_put_fails(v: PutView, st: SegmentStore, e: EventView)
    ensures
        put_next(v, st, e) matches Some((_, _, a)) ==> (a is Fail <==> e is Failed),
{
}

/// A get goes its way: the index is asked for the digest; where it tells, the segment is
/// read, as many bytes as it tells; without a record, with one that is none, and with a
/// segment that is too short, the page may have a file of its own, and else there is none.
pub proof fn law_get_goes_on(v: GetView, record: Seq<u8>, b: Seq<u8>)
    ensures
        v.phase == GetPhase::Start ==> {
            &&& get_next(v, GetEventView::Begin) matches Some((u, a))
            &&& u.phase == GetPhase::Index
            &&& u.digest == v.digest
            &&& a == GetActionView::Index(v.digest)
        },
        v.phase == GetPhase::Index && record.len() == 16 ==> {
            &&& get_next(v, GetEventView::Record(record)) matches Some((
                u,
                GetActionView::ReadSegment { name, off, len },
            ))
            &&& u.phase == GetPhase::Segment
            &&& u.digest == v.digest
            &&& segment_id_of(name) == Some(from_le_bytes(record.subrange(0, 4)))
            &&& off == from_le_bytes(record.subrange(4, 12))
            &&& len == from_le_bytes(record.subrange(12, 16))
        },
        v.phase == GetPhase::Index && record.len() != 16 ==> reads_page(
            v,
            get_next(v, GetEventView::Record(record)),
        ),
        v.phase == GetPhase::Index ==> reads_page(v, get_next(v, GetEventView::NoRecord)),
        v.phase == GetPhase::Segment ==> {
            &&& get_next(v, GetEventView::SegmentRead(b)) matches Some((_, a))
            &&& a == GetActionView::Found(b)
            &&& get_next(v, GetEventView::SegmentUnavailable) matches Some((_, c))
            &&& c is Absent
            &&& reads_page(v, get_next(v, GetEventView::SegmentShort))
        },
        v.phase == GetPhase::Page ==> {
            &&& get_next(v, GetEventView::PageRead(b)) matches Some((_, a))
            &&& a == GetActionView::Found(b)
            &&& get_next(v, GetEventView::PageMissing) matches Some((_, c))
            &&& c is Absent
        },
{
    if record.len() == 16 {
        digest::lemma_byte_ranges();
        lemma_read_bound(record.subrange(0, 4));
        lemma_read_bound(record.subrange(4, 12));
        lemma_read_bound(record.subrange(12, 16));
        law_segment_name(from_le_bytes(record.subrange(0, 4)) as u32);
    }
}

/// The file of the page is read.
pub open spec fn reads_page(v: GetView, next: Option<(GetView, GetActionView)>) -> bool {
    &&& next matches Some((u, a))
    &&& u.phase == GetPhase::Page
    &&& u.digest == v.digest
    &&& a == GetActionView::ReadPage(digest_path_text(v.digest))
}

proof fn lemma_read_bound(s: Seq<u8>)
    ensures
        from_le_bytes(s) < digest::byte_range(s.len()),
    decreases s.len(),
{
    if s.len() > 0 {
        lemma_read_bound(s.drop_first());
    }
}

/// What was put is got: over a sound disk, a get of the digest that was put, after the put
/// was done, finds the bytes that were put, and a get of any other digest finds what it
/// would have found before.
pub proof fn law_put_is_got(
    v: PutView,
    st: SegmentStore,
    events: Seq<EventView>,
    disks: Seq<Disk>,
    g: GetView,
    get_events: Seq<GetEventView>,
    before_events: Seq<GetEventView>,
)
    requires
        put_ready(v, st, disks[0]),
        put_answered(v, st, events, disks),
        put_run(v, st, events) matches Some((_, _, ActionView::Done(_))),
        g.phase == GetPhase::Start,
        get_answered(g, disks.last(), get_events),
        get_answered(g, disks[0], before_events),
    ensures
        match (get_run(g, get_events), get_run(g, before_events)) {
            (Some((_, a)), Some((_, b))) => {
                &&& g.digest == v.digest && a is Found ==> a == GetActionView::Found(v.data)
                &&& g.digest == v.digest ==> !(a is Absent)
                &&& g.digest != v.digest && (a is Found || a is Absent) && (b is Found
                    || b is Absent) ==> a == b
            },
            _ => false,
        },
{
    let other = if g.digest != v.digest {
        g.digest
    } else {
        v.digest.push('x')
    };
    law_put(v, st, events, disks, other);
    law_get(g, disks.last(), get_events);
    law_get(g, disks[0], before_events);
}

/// The names of files are what each of them says, in their order; and a record less in the
/// index is one page less, if there is one, and nothing else.
pub proof fn law_names_and_removal(s: Seq<String>, i: int, st: SegmentStore)
    ensures
        names_of(s).len() == s.len(),
        0 <= i < s.len() ==> names_of(s)[i] == s[i]@,
        st.after_removal(false) == st,
        st.after_removal(true).active == st.active,
        st.after_removal(true).stats.bytes == st.stats.bytes,
        st.stats.items > 0 ==> st.after_removal(true).stats.items + 1 == st.stats.items,
        st.stats.items == 0 ==> st.after_removal(true).stats.items == 0,
{
}

/// A delete goes its way: the record under the digest is taken out of the index, which is
/// counted if there was one; work that fails ends it with its error.
pub proof fn law_delete_goes_on(v: DeleteView, st: SegmentStore, removed: bool, t: Seq<char>)
    ensures
        v.phase == DeletePhase::Start ==> {
            &&& delete_next(v, st, DeleteEventView::Begin) matches Some((u, st2, a))
            &&& u.phase == DeletePhase::Removing
            &&& u.digest == v.digest
            &&& st2 == st
            &&& a == DeleteActionView::IndexDelete(v.digest)
        },
        v.phase == DeletePhase::Removing ==> {
            &&& delete_next(v, st, DeleteEventView::Removed(removed)) matches Some((_, st2, a))
            &&& a is Done
            &&& st2.stats.bytes == st.stats.bytes
            &&& st2.active == st.active
            &&& removed && st.stats.items > 0 ==> st2.stats.items + 1 == st.stats.items
            &&& !removed || st.stats.items == 0 ==> st2.stats.items == st.stats.items
            &&& delete_next(v, st, DeleteEventView::Failed(t)) matches Some((_, st3, b))
            &&& b == DeleteActionView::Fail("backend error: "@ + t)
            &&& st3 == st
        },
{
}

} // verus!
