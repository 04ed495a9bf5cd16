//! Reading one range of one file.
//!
//! Every page that the range touches is first brought into the cache; then the range is
//! put together from the cached pages.
use crate::manifest::{crc_of, file_of, find_file, FileEntry, Manifest};
use crate::read;
use crate::read::{
    key_of, open_page, page_at, page_of, page_start, read_end, refusal, taken, zero_padded,
    ActionView, EventView, Fill, FillNext, FillNextView, FillView, ReadAction, ReadEvent, Refusal,
    World,
};
use crate::types::{CacheKey, CacheKeyView};
use vstd::prelude::*;

verus! {

/// A range of a file that a client asks for. Without a hash the file's own is taken.
#[derive(Debug)]
pub struct BlobQuery {
    pub ns: String,
    pub path: String,
    pub off: u64,
    pub len: u64,
    pub hash: Option<String>,
}

#[derive(Debug)]
enum Phase {
    Start,
    Fill { page_id: u32, fill: Fill },
    Copy { page_id: u32, cur: u64, out: Vec<u8> },
    Done,
}

/// A read under way.
#[derive(Debug)]
pub struct BlobRead<'a> {
    entry: Option<&'a FileEntry>,
    ns: String,
    path: String,
    hash: String,
    slab: u64,
    off: u64,
    len: u64,
    phase: Phase,
}

/// What a read is about, and how far it is.
pub struct BlobView {
    pub entry: Option<FileEntry>,
    pub ns: Seq<char>,
    pub path: Seq<char>,
    pub hash: Seq<char>,
    pub slab: u64,
    pub off: u64,
    pub len: u64,
    pub phase: PhaseView,
}

/// How far a read is.
pub enum PhaseView {
    /// Nothing has been decided.
    Start,
    /// This page is on its way into the cache; those before it are there.
    Fill { page_id: u32, fill: FillView },
    /// This page is to be copied from; the answer up to the file offset `cur` is `out`.
    Copy { page_id: u32, cur: u64, out: Seq<u8> },
    /// The answer was given.
    Done,
}

impl<'a> View for BlobRead<'a> {
    type V = BlobView;

    closed spec fn view(&self) -> BlobView {
        BlobView {
            entry: match self.entry {
                Some(e) => Some(*e),
                None => None,
            },
            ns: self.ns@,
            path: self.path@,
            hash: self.hash@,
            slab: self.slab,
            off: self.off,
            len: self.len,
            phase: match self.phase {
                Phase::Start => PhaseView::Start,
                Phase::Fill { page_id, fill } => PhaseView::Fill { page_id, fill: fill@ },
                Phase::Copy { page_id, cur, out } => PhaseView::Copy { page_id, cur, out: out@ },
                Phase::Done => PhaseView::Done,
            },
        }
    }
}

impl BlobView {
    /// Where the range ends: where the request says, but not behind the end of the file.
    pub open spec fn end(self) -> u64 {
        read_end(self.entry->0.size, self.off, self.len)
    }

    /// The first page of the range.
    pub open spec fn first(self) -> u32 {
        page_at(self.slab, self.off)
    }

    /// The last page of the range.
    pub open spec fn last(self) -> u32 {
        page_at(self.slab, (self.end() - 1) as u64)
    }

    pub open spec fn at(self, phase: PhaseView) -> BlobView {
        BlobView { phase, ..self }
    }

    /// There is a range to read.
    pub open spec fn admitted(self) -> bool {
        &&& self.entry is Some
        &&& self.off < self.end()
    }

    pub open spec fn wf(self) -> bool {
        match self.phase {
            PhaseView::Start | PhaseView::Done => true,
            PhaseView::Fill { page_id, .. } | PhaseView::Copy { page_id, .. } => {
                &&& self.slab > 0
                &&& self.admitted()
                &&& self.first() <= page_id <= self.last()
            },
        }
    }
}

/// A read before its first decision.
pub open spec fn blob_start(
    files: Seq<FileEntry>,
    ns: Seq<char>,
    path: Seq<char>,
    off: u64,
    len: u64,
    hash: Option<Seq<char>>,
    slab: u64,
) -> BlobView {
    let entry = file_of(files, path);
    BlobView {
        entry,
        ns,
        path,
        hash: match (hash, entry) {
            (Some(h), _) => h,
            (None, Some(e)) => e.hash@,
            (None, None) => Seq::empty(),
        },
        slab,
        off,
        len,
        phase: PhaseView::Start,
    }
}

pub open spec fn refuse(v: BlobView, status: u16, message: Seq<char>) -> (BlobView, ActionView) {
    (v.at(PhaseView::Done), ActionView::Refuse(refusal(status, message)))
}

pub open spec fn reply(v: BlobView, out: Seq<u8>) -> (BlobView, ActionView) {
    (v.at(PhaseView::Done), ActionView::Reply(zero_padded(out, v.end() - v.off)))
}

/// Begins to bring a page into the cache.
pub open spec fn ensure_page(v: BlobView, page_id: u32) -> (BlobView, ActionView) {
    (
        v.at(PhaseView::Fill { page_id, fill: FillView::Probe }),
        ActionView::Lookup(key_of(v.ns, v.path, v.hash, page_id)),
    )
}

/// Begins to copy from a page.
pub open spec fn copy_page(v: BlobView, page_id: u32, cur: u64, out: Seq<u8>) -> (
    BlobView,
    ActionView,
) {
    (
        v.at(PhaseView::Copy { page_id, cur, out }),
        ActionView::Lookup(key_of(v.ns, v.path, v.hash, page_id)),
    )
}

/// The first decision: the request is refused, or the first page is looked for. There is
/// none if the pages have no bytes.
pub open spec fn blob_begin(v: BlobView) -> Option<(BlobView, ActionView)> {
    match v.entry {
        None => Some(refuse(v, 404, "file not in manifest"@)),
        Some(e) => if v.off >= e.size {
            Some(refuse(v, 416, "offset beyond EOF"@))
        } else if v.end() <= v.off {
            Some(refuse(v, 400, "len must be > 0"@))
        } else if v.slab == 0 {
            None
        } else if v.first() > v.last() {
            Some(reply(v, Seq::empty()))
        } else {
            Some(ensure_page(v, v.first()))
        },
    }
}

/// The decision while a page is on its way into the cache.
pub open spec fn blob_filled(v: BlobView, page_id: u32, n: FillNextView) -> (BlobView, ActionView) {
    match n {
        FillNextView::Open => (
            v.at(PhaseView::Fill { page_id, fill: FillView::Opening }),
            open_page(v.entry->0, v.slab, page_id),
        ),
        FillNextView::Read(b) => (
            v.at(PhaseView::Fill { page_id, fill: FillView::Filling(b) }),
            ActionView::NextChunk,
        ),
        FillNextView::Store(b) => (
            v.at(PhaseView::Fill { page_id, fill: FillView::Storing }),
            ActionView::Store { key: key_of(v.ns, v.path, v.hash, page_id), page: b },
        ),
        FillNextView::Done => if page_id < v.last() {
            ensure_page(v, (page_id + 1) as u32)
        } else {
            copy_page(v, v.first(), v.off, Seq::empty())
        },
        FillNextView::Refuse(r) => (v.at(PhaseView::Done), ActionView::Refuse(r)),
    }
}

/// The decision once a page was copied from.
pub open spec fn blob_copied(v: BlobView, page_id: u32, cur: u64, out: Seq<u8>) -> (
    BlobView,
    ActionView,
) {
    if page_id < v.last() {
        copy_page(v, (page_id + 1) as u32, cur, out)
    } else {
        reply(v, out)
    }
}

/// The next state and what is to be done. There is none if the event does not answer
/// what was asked, if the pages have no bytes, or if a page ends before the place where it
/// is to be read.
pub open spec fn blob_next(v: BlobView, e: EventView) -> Option<(BlobView, ActionView)> {
    match v.phase {
        PhaseView::Start => match e {
            EventView::Begin => blob_begin(v),
            _ => None,
        },
        PhaseView::Fill { page_id, fill } => match read::fill_next(v.entry->0, page_id, fill, e) {
            Some(n) => Some(blob_filled(v, page_id, n)),
            None => None,
        },
        PhaseView::Copy { page_id, cur, out } => match e {
            EventView::Absent => Some(refuse(v, 500, "l2 missing after fetch"@)),
            EventView::Found(page) => match taken(
                page_start(v.slab, page_id),
                cur,
                v.end(),
                page,
            ) {
                Some((b, next)) => Some(blob_copied(v, page_id, next, out + b)),
                None => None,
            },
            _ => None,
        },
        PhaseView::Done => None,
    }
}

/// Every page of the range begins inside it.
proof fn lemma_page_in_range(v: BlobView, page_id: u32)
    requires
        v.slab > 0,
        v.admitted(),
        page_id <= v.last(),
    ensures
        0 <= page_start(v.slab, page_id) < v.end(),
        v.end() <= v.entry->0.size,
{
    read::lemma_page_at(v.slab, (v.end() - 1) as u64);
    read::lemma_page_start_monotone(v.slab, page_id, v.last());
    vstd::arithmetic::mul::lemma_mul_nonnegative(page_id as int, v.slab as int);
}

impl<'a> BlobRead<'a> {
    /// A read of a file of the manifest, in pages of `slab` bytes.
    pub fn new(m: &'a Manifest, query: BlobQuery, slab: u64) -> (r: BlobRead<'a>)
        ensures
            r@ == blob_start(
                m.files@,
                query.ns@,
                query.path@,
                query.off,
                query.len,
                match query.hash {
                    Some(h) => Some(h@),
                    None => None,
                },
                slab,
            ),
            r@.wf(),
    {
        let entry = find_file(m, query.path.as_str());
        let hash = match query.hash {
            Some(h) => h,
            None => match entry {
                Some(e) => e.hash.clone(),
                None => String::new(),
            },
        };
        BlobRead {
            entry,
            ns: query.ns,
            path: query.path,
            hash,
            slab,
            off: query.off,
            len: query.len,
            phase: Phase::Start,
        }
    }

    fn key(&self, page_id: u32) -> (r: CacheKey)
        ensures
            r@ == key_of(self@.ns, self@.path, self@.hash, page_id),
    {
        CacheKey::new(self.ns.as_str(), self.path.as_str(), self.hash.as_str(), page_id)
    }

    fn refuse(&mut self, status: u16, message: &str) -> (r: ReadAction)
        ensures
            (final(self)@, r@) == refuse(old(self)@, status, message@),
    {
        self.phase = Phase::Done;
        ReadAction::Refuse(Refusal { status, message: message.to_string() })
    }

    fn reply(&mut self, out: Vec<u8>, end: u64) -> (r: ReadAction)
        requires
            old(self)@.admitted(),
            end == old(self)@.end(),
        ensures
            (final(self)@, r@) == reply(old(self)@, out@),
    {
        let mut out = out;
        read::pad(&mut out, end - self.off);
        self.phase = Phase::Done;
        ReadAction::Reply(out)
    }

    fn ensure_page(&mut self, page_id: u32) -> (r: ReadAction)
        ensures
            (final(self)@, r@) == ensure_page(old(self)@, page_id),
    {
        self.phase = Phase::Fill { page_id, fill: Fill::Probe };
        ReadAction::Lookup(self.key(page_id))
    }

    fn copy_page(&mut self, page_id: u32, cur: u64, out: Vec<u8>) -> (r: ReadAction)
        ensures
            (final(self)@, r@) == copy_page(old(self)@, page_id, cur, out@),
    {
        self.phase = Phase::Copy { page_id, cur, out };
        ReadAction::Lookup(self.key(page_id))
    }

    fn end_in(&self, entry: &FileEntry) -> (r: u64)
        requires
            self@.entry == Some(*entry),
        ensures
            r == self@.end(),
    {
        read::end_of(entry.size, self.off, self.len)
    }

    fn begin(&mut self) -> (r: Option<ReadAction>)
        requires
            old(self)@.phase is Done,
        ensures
            match blob_begin(old(self)@) {
                Some((v, a)) => r is Some && r->0@ == a && final(self)@ == v,
                None => r is None && final(self)@ == old(self)@,
            },
            final(self)@.wf(),
    {
        let entry = match self.entry {
            None => {
                return Some(self.refuse(404, "file not in manifest"));
            },
            Some(e) => e,
        };
        let end = self.end_in(entry);
        if self.off >= entry.size {
            return Some(self.refuse(416, "offset beyond EOF"));
        }
        if end <= self.off {
            return Some(self.refuse(400, "len must be > 0"));
        }
        if self.slab == 0 {
            return None;
        }
        let first = (self.off / self.slab) as u32;
        let last = ((end - 1) / self.slab) as u32;
        if first > last {
            Some(self.reply(Vec::new(), end))
        } else {
            Some(self.ensure_page(first))
        }
    }

    fn filled(&mut self, page_id: u32, n: FillNext) -> (r: ReadAction)
        requires
            old(self)@.slab > 0,
            old(self)@.admitted(),
            old(self)@.first() <= page_id <= old(self)@.last(),
        ensures
            (final(self)@, r@) == blob_filled(old(self)@, page_id, n@),
            final(self)@.wf(),
    {
        proof {
            lemma_page_in_range(self@, page_id);
        }
        match self.entry {
            None => {
                assert(false);
                self.refuse(404, "file not in manifest")
            },
            Some(entry) => match n {
                FillNext::Open => {
                    self.phase = Phase::Fill { page_id, fill: Fill::Opening };
                    read::open_page_action(entry, self.slab, page_id)
                },
                FillNext::Read(b) => {
                    self.phase = Phase::Fill { page_id, fill: Fill::Filling(b) };
                    ReadAction::NextChunk
                },
                FillNext::Store(b) => {
                    self.phase = Phase::Fill { page_id, fill: Fill::Storing };
                    ReadAction::Store { key: self.key(page_id), page: b }
                },
                FillNext::Done => {
                    let end = self.end_in(entry);
                    let last = ((end - 1) / self.slab) as u32;
                    if page_id < last {
                        self.ensure_page(page_id + 1)
                    } else {
                        let first = (self.off / self.slab) as u32;
                        let off = self.off;
                        self.copy_page(first, off, Vec::new())
                    }
                },
                FillNext::Refuse(refusal) => {
                    self.phase = Phase::Done;
                    ReadAction::Refuse(refusal)
                },
            },
        }
    }

    /// Takes in what came of the last action and says what is to be done next. There is
    /// no next action if the event does not answer the last one, if the pages have no
    /// bytes, or if a page ends before the place where it is to be read; the read then is
    /// over.
    pub fn step(&mut self, event: ReadEvent) -> (r: Option<ReadAction>)
        requires
            old(self)@.wf(),
        ensures
            match blob_next(old(self)@, event@) {
                Some((v, a)) => r is Some && r->0@ == a && final(self)@ == v,
                None => r is None && final(self)@ == old(self)@.at(PhaseView::Done),
            },
            final(self)@.wf(),
    {
        let mut phase = Phase::Done;
        core::mem::swap(&mut phase, &mut self.phase);
        match phase {
            Phase::Start => match event {
                ReadEvent::Begin => self.begin(),
                _ => None,
            },
            Phase::Fill { page_id, fill } => match self.entry {
                None => None,
                Some(entry) => match read::fill_step(entry, page_id, fill, event) {
                    Some(n) => Some(self.filled(page_id, n)),
                    None => None,
                },
            },
            Phase::Copy { page_id, cur, out } => match event {
                ReadEvent::Absent => Some(self.refuse(500, "l2 missing after fetch")),
                ReadEvent::Found(page) => match self.entry {
                    None => None,
                    Some(entry) => {
                        proof {
                            lemma_page_in_range(self@, page_id);
                        }
                        let end = self.end_in(entry);
                        let last = ((end - 1) / self.slab) as u32;
                        let start = page_id as u64 * self.slab;
                        let mut out = out;
                        match read::take_from(&mut out, start, cur, end, page.as_slice()) {
                            Some(next) => if page_id < last {
                                Some(self.copy_page(page_id + 1, next, out))
                            } else {
                                Some(self.reply(out, end))
                            },
                            None => None,
                        }
                    },
                },
                _ => None,
            },
            Phase::Done => None,
        }
    }
}

/// Where a read is after these events, and what it then asks for.
pub open spec fn blob_run(v: BlobView, events: Seq<EventView>) -> Option<(BlobView, ActionView)>
    decreases events.len(),
{
    if events.len() == 0 {
        None
    } else if events.len() == 1 {
        blob_next(v, events[0])
    } else {
        match blob_run(v, events.drop_last()) {
            Some((u, _)) => blob_next(u, events.last()),
            None => None,
        }
    }
}

/// The event at `i` is a true answer to what was asked before it; `worlds` are the worlds
/// after each event.
pub open spec fn answered_at(
    v: BlobView,
    events: Seq<EventView>,
    worlds: Seq<World>,
    i: int,
) -> bool {
    match blob_run(v, events.take(i)) {
        Some((_, a)) => read::answers(worlds[i - 1], a, events[i], worlds[i]),
        None => false,
    }
}

/// Every event behind the first is a true answer to what was asked before it.
pub open spec fn answered(v: BlobView, events: Seq<EventView>, worlds: Seq<World>) -> bool {
    &&& events.len() > 0
    &&& events[0] is Begin
    &&& worlds.len() == events.len()
    &&& forall|i: int|
        0 < i < events.len() ==> #[trigger] answered_at(v, events, worlds, i)
}

/// The file's page is in the cache.
spec fn cached(
    cache: Map<CacheKeyView, Seq<u8>>,
    ns: Seq<char>,
    path: Seq<char>,
    hash: Seq<char>,
    page_id: u32,
) -> bool {
    cache.contains_key(key_of(ns, path, hash, page_id))
}

/// What holds at every point of a read in a world that gives true answers.
spec fn on_course(v: BlobView, a: ActionView, w: World, content: Seq<u8>) -> bool {
    let (first, last) = (v.first(), v.last());
    &&& v.wf()
    &&& v.slab > 0
    &&& v.admitted()
    &&& read::describes(v.entry->0, content, v.slab)
    &&& read::numbered(v.entry->0.size, v.slab)
    &&& w.objects.contains_key(v.entry->0.storage.key@)
    &&& w.objects[v.entry->0.storage.key@] == content
    &&& read::sound(w.cache, v.ns, v.path, v.hash, content, v.slab)
    &&& match v.phase {
        PhaseView::Start => false,
        PhaseView::Fill { page_id, fill } => {
            &&& forall|p: u32| first <= p < page_id ==> #[trigger] cached(w.cache, v.ns, v.path, v.hash, p)
            &&& match fill {
                FillView::Probe => a == ActionView::Lookup(key_of(v.ns, v.path, v.hash, page_id)),
                FillView::Opening => a == open_page(v.entry->0, v.slab, page_id),
                FillView::Filling(b) => a is NextChunk && b + w.stream == page_of(
                    content,
                    v.slab,
                    page_id,
                ),
                FillView::Storing => a == ActionView::Store {
                    key: key_of(v.ns, v.path, v.hash, page_id),
                    page: page_of(content, v.slab, page_id),
                },
            }
        },
        PhaseView::Copy { page_id, cur, out } => {
            &&& forall|p: u32| first <= p <= last ==> #[trigger] cached(w.cache, v.ns, v.path, v.hash, p)
            &&& a == ActionView::Lookup(key_of(v.ns, v.path, v.hash, page_id))
            &&& cur == if page_id == first {
                v.off as int
            } else {
                page_start(v.slab, page_id)
            }
            &&& v.off <= cur
            &&& out == content.subrange(v.off as int, cur as int)
        },
        PhaseView::Done => {
            &&& forall|p: u32|
                first <= p <= last ==> #[trigger] cached(w.cache, v.ns, v.path, v.hash, p)
            &&& a == ActionView::Reply(content.subrange(v.off as int, v.end() as int))
        },
    }
}

proof fn lemma_begin(v: BlobView, w: World, content: Seq<u8>)
    requires
        v.phase is Start,
        v.slab > 0,
        v.admitted(),
        read::describes(v.entry->0, content, v.slab),
        read::numbered(v.entry->0.size, v.slab),
        w.objects.contains_key(v.entry->0.storage.key@),
        w.objects[v.entry->0.storage.key@] == content,
        read::sound(w.cache, v.ns, v.path, v.hash, content, v.slab),
    ensures
        match blob_begin(v) {
            Some((u, a)) => on_course(u, a, w, content),
            None => false,
        },
{
    lemma_pages_of_range(v);
}

/// The first and the last page hold the first and the last byte of the range.
proof fn lemma_pages_of_range(v: BlobView)
    requires
        v.slab > 0,
        v.admitted(),
        read::numbered(v.entry->0.size, v.slab),
    ensures
        v.first() <= v.last(),
        page_start(v.slab, v.first()) <= v.off < page_start(v.slab, v.first()) + v.slab,
        page_start(v.slab, v.last()) < v.end() <= page_start(v.slab, v.last()) + v.slab,
        v.end() <= v.entry->0.size,
{
    let size = v.entry->0.size;
    let e = (v.end() - 1) as u64;
    vstd::arithmetic::div_mod::lemma_div_is_ordered(v.off as int, e as int, v.slab as int);
    vstd::arithmetic::div_mod::lemma_div_is_ordered(e as int, size - 1, v.slab as int);
    read::lemma_page_at(v.slab, v.off);
    read::lemma_page_at(v.slab, e);
}

/// A step keeps a read on its course, or ends it because of a failure.
spec fn stays(v: BlobView, e: EventView, w2: World, content: Seq<u8>) -> bool {
    match blob_next(v, e) {
        Some((v2, a2)) => {
            ||| on_course(v2, a2, w2, content)
            ||| {
                &&& a2 is Refuse
                &&& read::failed(e)
                &&& read::sound(w2.cache, v.ns, v.path, v.hash, content, v.slab)
            }
        },
        None => false,
    }
}

#[verifier::rlimit(30)]
#[verifier::spinoff_prover]
proof fn lemma_step(
    v: BlobView,
    a: ActionView,
    w: World,
    e: EventView,
    w2: World,
    content: Seq<u8>,
)
    requires
        on_course(v, a, w, content),
        read::answers(w, a, e, w2),
    ensures
        stays(v, e, w2, content),
{
    lemma_pages_of_range(v);
    match v.phase {
        PhaseView::Start => {},
        PhaseView::Fill { page_id, fill } => {
            lemma_page_in_range(v, page_id);
            let page = page_of(content, v.slab, page_id);
            assert(content.subrange(v.off as int, v.off as int) =~= Seq::<u8>::empty());
            match fill {
                FillView::Probe => {},
                FillView::Opening => {
                    assert(w.objects[v.entry->0.storage.key@] == content);
                    if e is Opened {
                        assert(Seq::<u8>::empty() + w2.stream =~= page);
                    }
                },
                FillView::Filling(b) => match e {
                    EventView::Chunk(c) => {
                        assert(b + c + w2.stream =~= b + w.stream);
                    },
                    EventView::StreamEnd => {
                        assert(b + w.stream =~= b);
                        assert(b == page);
                        assert(crc_of(v.entry->0.page_table@, page_id) is Some ==> crc_of(
                            v.entry->0.page_table@,
                            page_id,
                        )->0 == crate::digest::crc32c_of(page));
                    },
                    _ => {},
                },
                FillView::Storing => {
                    if e is Stored {
                        assert forall|p: u32| v.first() <= p <= page_id implies #[trigger] cached(
                            w2.cache,
                            v.ns,
                            v.path,
                            v.hash,
                            p,
                        ) by {
                            if p < page_id {
                                assert(cached(w.cache, v.ns, v.path, v.hash, p));
                            }
                        }
                    }
                },
            }
        },
        PhaseView::Copy { page_id, cur, out } => {
            lemma_page_in_range(v, page_id);
            assert(cached(w.cache, v.ns, v.path, v.hash, page_id));
            let start = page_start(v.slab, page_id);
            let page = page_of(content, v.slab, page_id);
            assert(w.cache[key_of(v.ns, v.path, v.hash, page_id)] == page);
            if page_id < v.last() {
                let next = (page_id + 1) as u32;
                read::lemma_page_start_monotone(v.slab, page_id, next);
                lemma_page_in_range(v, next);
                assert(page_start(v.slab, next) == start + v.slab) by {
                    vstd::arithmetic::mul::lemma_mul_is_distributive_add_other_way(
                        v.slab as int,
                        page_id as int,
                        1,
                    );
                }
                assert(page.len() == v.slab);
                assert(out + page.subrange(cur - start, page.len() as int) =~= content.subrange(
                    v.off as int,
                    start + v.slab,
                ));
            } else {
                assert(out + page.subrange(cur - start, v.end() - start) =~= content.subrange(
                    v.off as int,
                    v.end() as int,
                ));
            }
        },
        PhaseView::Done => {},
    }
}

/// A read of a range that the file has, in a cache that holds only pages of the file
/// and over a store that gives true answers: the reply, when it comes, is the range of
/// the content, and all pages of the range are then in the cache; the request is refused
/// only right after some outside work failed; and the cache still holds only pages of the
/// file.
pub proof fn law_blob_reply(
    v: BlobView,
    events: Seq<EventView>,
    worlds: Seq<World>,
    content: Seq<u8>,
)
    requires
        v.phase is Start,
        v.slab > 0,
        v.admitted(),
        read::describes(v.entry->0, content, v.slab),
        read::numbered(v.entry->0.size, v.slab),
        answered(v, events, worlds),
        worlds[0].objects.contains_key(v.entry->0.storage.key@),
        worlds[0].objects[v.entry->0.storage.key@] == content,
        read::sound(worlds[0].cache, v.ns, v.path, v.hash, content, v.slab),
    ensures
        match blob_run(v, events) {
            Some((_, a)) => {
                &&& a matches ActionView::Reply(b) ==> b == content.subrange(
                    v.off as int,
                    v.end() as int,
                )
                &&& a is Reply ==> range_cached(v, worlds.last())
                &&& a is Refuse ==> read::failed(events.last())
                &&& read::sound(worlds.last().cache, v.ns, v.path, v.hash, content, v.slab)
            },
            None => false,
        },
{
    lemma_on_course(v, events, worlds, content);
    let (u, a) = blob_run(v, events)->0;
    if a is Reply {
        let w = worlds.last();
        assert forall|p: u32|
            #![trigger key_of(v.ns, v.path, v.hash, p)]
            v.first() <= p <= v.last() implies w.cache.contains_key(
            key_of(v.ns, v.path, v.hash, p),
        ) by {
            assert(cached(w.cache, v.ns, v.path, v.hash, p));
        }
    }
}

/// All pages of the range are in the cache.
pub open spec fn range_cached(v: BlobView, w: World) -> bool {
    forall|p: u32|
        #![trigger key_of(v.ns, v.path, v.hash, p)]
        v.first() <= p <= v.last() ==> w.cache.contains_key(key_of(v.ns, v.path, v.hash, p))
}

/// A read whose pages are all in the cache, as they are after the same read was answered,
/// asks nothing of the store: it only looks pages up and then replies.
pub proof fn law_blob_cached(
    v: BlobView,
    events: Seq<EventView>,
    worlds: Seq<World>,
    content: Seq<u8>,
)
    requires
        v.phase is Start,
        v.slab > 0,
        v.admitted(),
        read::describes(v.entry->0, content, v.slab),
        read::numbered(v.entry->0.size, v.slab),
        answered(v, events, worlds),
        worlds[0].objects.contains_key(v.entry->0.storage.key@),
        worlds[0].objects[v.entry->0.storage.key@] == content,
        read::sound(worlds[0].cache, v.ns, v.path, v.hash, content, v.slab),
        range_cached(v, worlds[0]),
    ensures
        match blob_run(v, events) {
            Some((_, a)) => {
                &&& a is Lookup || a == ActionView::Reply(
                    content.subrange(v.off as int, v.end() as int),
                )
                &&& worlds.last() == worlds[0]
            },
            None => false,
        },
{
    lemma_cached_run(v, events, worlds, content);
}

proof fn lemma_cached_run(
    v: BlobView,
    events: Seq<EventView>,
    worlds: Seq<World>,
    content: Seq<u8>,
)
    requires
        v.phase is Start,
        v.slab > 0,
        v.admitted(),
        read::describes(v.entry->0, content, v.slab),
        read::numbered(v.entry->0.size, v.slab),
        answered(v, events, worlds),
        worlds[0].objects.contains_key(v.entry->0.storage.key@),
        worlds[0].objects[v.entry->0.storage.key@] == content,
        read::sound(worlds[0].cache, v.ns, v.path, v.hash, content, v.slab),
        range_cached(v, worlds[0]),
    ensures
        match blob_run(v, events) {
            Some((u, a)) => {
                &&& on_course(u, a, worlds[0], content)
                &&& v.at(u.phase) == u
                &&& worlds.last() == worlds[0]
                &&& !(u.phase is Fill) || u.phase->fill is Probe
            },
            None => false,
        },
    decreases events.len(),
{
    lemma_on_course(v, events, worlds, content);
    if events.len() > 1 {
        let before = events.drop_last();
        let n = events.len() - 1;
        assert(events.take(n as int) =~= before);
        lemma_answered_prefix(v, events, worlds);
        lemma_cached_run(v, before, worlds.drop_last(), content);
        assert(events[n as int] == events.last());
        assert(answered_at(v, events, worlds, n as int));
        let (u, a) = blob_run(v, before)->0;
        let w = worlds[0];
        assert(worlds.drop_last().last() == worlds[n - 1]);
        assert(read::answers(worlds[n - 1], a, events.last(), worlds[n as int]));
        if let PhaseView::Fill { page_id, .. } = u.phase {
            assert(w.cache.contains_key(key_of(v.ns, v.path, v.hash, page_id)));
        }
        lemma_step(u, a, w, events.last(), worlds[n as int], content);
    }
}

/// What was answered truly was answered truly before the last event, too.
proof fn lemma_answered_prefix(v: BlobView, events: Seq<EventView>, worlds: Seq<World>)
    requires
        answered(v, events, worlds),
        events.len() > 1,
    ensures
        answered(v, events.drop_last(), worlds.drop_last()),
{
    let before = events.drop_last();
    let earlier = worlds.drop_last();
    assert(before[0] == events[0]);
    assert forall|i: int| 0 < i < before.len() implies #[trigger] answered_at(
        v,
        before,
        earlier,
        i,
    ) by {
        assert(answered_at(v, events, worlds, i));
        assert(before.take(i) =~= events.take(i));
        assert(events[i] == before[i]);
    }
}

/// How many steps of a read are behind it, at the most.
pub open spec fn steps_done(v: BlobView) -> int {
    match v.phase {
        PhaseView::Start => 0,
        PhaseView::Fill { page_id, fill } => 1 + 4 * page_id + match fill {
            FillView::Probe => 0int,
            FillView::Opening => 1,
            FillView::Filling(_) => 2,
            FillView::Storing => 3,
        },
        PhaseView::Copy { page_id, .. } => 1 + 4 * (u32::MAX + 1) + page_id,
        PhaseView::Done => 1 + 8 * (u32::MAX + 1),
    }
}

proof fn lemma_rank_step(v: BlobView, e: EventView)
    ensures
        match blob_next(v, e) {
            Some((u, a)) => {
                &&& steps_done(u) > steps_done(v) || (steps_done(u) == steps_done(v) && v.phase is Fill && v.phase->fill is Filling)
                &&& a is Open ==> u.phase is Fill && u.phase->fill is Opening
            },
            None => true,
        },
{
}

proof fn lemma_rank_run(v: BlobView, events: Seq<EventView>, i: int)
    requires
        0 < i < events.len(),
        blob_run(v, events) is Some,
    ensures
        match (blob_run(v, events.take(i)), blob_run(v, events)) {
            (Some((u, a)), Some((w, b))) => {
                &&& steps_done(w) >= steps_done(u)
                &&& a is Open ==> steps_done(w) > steps_done(u)
                &&& a is Open ==> u.phase is Fill && u.phase->fill is Opening
                &&& b is Open ==> w.phase is Fill && w.phase->fill is Opening
            },
            _ => false,
        },
    decreases events.len(),
{
    let before = events.drop_last();
    let (m, _) = blob_run(v, before)->0;
    lemma_rank_step(m, events.last());
    if i < before.len() {
        assert(before.take(i) =~= events.take(i));
        lemma_rank_run(v, before, i);
    } else {
        assert(events.take(i) =~= before);
        if before.len() == 1 {
            lemma_rank_step(v, before[0]);
        } else {
            let (k, _) = blob_run(v, before.drop_last())->0;
            lemma_rank_step(k, before.last());
        }
    }
}

/// A read requests no page twice: of two requests, the later is for a higher page.
pub proof fn law_blob_fetches_once(v: BlobView, events: Seq<EventView>, i: int)
    requires
        0 < i < events.len(),
        blob_run(v, events) is Some,
    ensures
        match (blob_run(v, events.take(i)), blob_run(v, events)) {
            (
                Some((u, ActionView::Open { .. })),
                Some((w, ActionView::Open { .. })),
            ) => match (u.phase, w.phase) {
                (PhaseView::Fill { page_id: p, .. }, PhaseView::Fill { page_id: q, .. }) => p < q,
                _ => false,
            },
            _ => true,
        },
{
    lemma_rank_run(v, events, i);
}

proof fn lemma_on_course(
    v: BlobView,
    events: Seq<EventView>,
    worlds: Seq<World>,
    content: Seq<u8>,
)
    requires
        v.phase is Start,
        v.slab > 0,
        v.admitted(),
        read::describes(v.entry->0, content, v.slab),
        read::numbered(v.entry->0.size, v.slab),
        answered(v, events, worlds),
        worlds[0].objects.contains_key(v.entry->0.storage.key@),
        worlds[0].objects[v.entry->0.storage.key@] == content,
        read::sound(worlds[0].cache, v.ns, v.path, v.hash, content, v.slab),
    ensures
        match blob_run(v, events) {
            Some((u, a)) => {
                &&& v.at(u.phase) == u
                &&& {
                    ||| on_course(u, a, worlds.last(), content)
                    ||| {
                        &&& a is Refuse
                        &&& read::failed(events.last())
                        &&& read::sound(worlds.last().cache, v.ns, v.path, v.hash, content, v.slab)
                    }
                }
            },
            None => false,
        },
    decreases events.len(),
{
    if events.len() == 1 {
        lemma_begin(v, worlds[0], content);
    } else {
        let before = events.drop_last();
        let n = events.len() - 1;
        assert(events.take(n as int) =~= before);
        lemma_answered_prefix(v, events, worlds);
        lemma_on_course(v, before, worlds.drop_last(), content);
        assert(events[n as int] == events.last());
        assert(answered_at(v, events, worlds, n as int));
        let (u, a) = blob_run(v, before)->0;
        assert(read::answers(worlds[n - 1], a, events.last(), worlds[n as int]));
        if on_course(u, a, worlds.drop_last().last(), content) {
            lemma_step(u, a, worlds[n - 1], events.last(), worlds[n as int], content);
        }
    }
}

/// A page that is put into the cache has the checksum that the page table gives for it,
/// whatever the store sent.
pub proof fn law_blob_stores_checked(v: BlobView, e: EventView)
    ensures
        match blob_next(v, e) {
            Some((_, ActionView::Store { key, page })) => {
                &&& key == key_of(v.ns, v.path, v.hash, key.page_id)
                &&& match crc_of(v.entry->0.page_table@, key.page_id) {
                    Some(c) => crate::digest::crc32c_of(page) == c,
                    None => true,
                }
            },
            _ => true,
        },
{
}

/// Bytes are requested from the store only for a page that the cache was asked for and
/// does not have.
pub proof fn law_blob_fetches_missing(v: BlobView, e: EventView)
    ensures
        match blob_next(v, e) {
            Some((_, ActionView::Open { key, start, end })) => {
                &&& e is Absent
                &&& v.phase matches PhaseView::Fill { page_id, fill: FillView::Probe }
                &&& ActionView::Open { key, start, end } == open_page(v.entry->0, v.slab, page_id)
            },
            _ => true,
        },
{
}

/// What a read asks for, and what it changes: how far it is.
proof fn lemma_asks(v: BlobView, e: EventView)
    ensures
        match blob_next(v, e) {
            Some((u, a)) => {
                &&& v.at(u.phase) == u
                &&& a matches ActionView::Store { key, .. } ==> key == key_of(
                    v.ns,
                    v.path,
                    v.hash,
                    key.page_id,
                )
            },
            None => true,
        },
{
}

proof fn lemma_asks_run(v: BlobView, events: Seq<EventView>)
    ensures
        match blob_run(v, events) {
            Some((u, a)) => {
                &&& v.at(u.phase) == u
                &&& a matches ActionView::Store { key, .. } ==> key == key_of(
                    v.ns,
                    v.path,
                    v.hash,
                    key.page_id,
                )
            },
            None => true,
        },
    decreases events.len(),
{
    if events.len() == 1 {
        lemma_asks(v, events[0]);
    } else if events.len() > 1 {
        lemma_asks_run(v, events.drop_last());
        if let Some((u, _)) = blob_run(v, events.drop_last()) {
            lemma_asks(u, events.last());
        }
    }
}

/// Over a whole read, however far it came and whatever the store gave, the pages under
/// other keys than those of the file stay as they were: those of other files and
/// namespaces, and those of the same file under another hash.
pub proof fn law_blob_leaves_others(
    v: BlobView,
    events: Seq<EventView>,
    worlds: Seq<World>,
    key: CacheKeyView,
)
    requires
        answered(v, events, worlds),
        key != key_of(v.ns, v.path, v.hash, key.page_id),
    ensures
        worlds.last().cache.contains_key(key) == worlds[0].cache.contains_key(key),
        worlds.last().cache[key] == worlds[0].cache[key],
        worlds.last().objects == worlds[0].objects,
    decreases events.len(),
{
    if events.len() > 1 {
        let n = events.len() - 1;
        lemma_answered_prefix(v, events, worlds);
        law_blob_leaves_others(v, events.drop_last(), worlds.drop_last(), key);
        assert(events.take(n as int) =~= events.drop_last());
        assert(answered_at(v, events, worlds, n as int));
        lemma_asks_run(v, events.drop_last());
    }
}

/// The place of the file of a request: the first with the path.
pub open spec fn found_at(files: Seq<FileEntry>, path: Seq<char>, i: int) -> bool {
    &&& 0 <= i < files.len()
    &&& files[i].path@ == path
    &&& forall|j: int| 0 <= j < i ==> (#[trigger] files[j]).path@ != path
}

pub proof fn lemma_found(files: Seq<FileEntry>, path: Seq<char>, i: int)
    requires
        found_at(files, path, i),
    ensures
        file_of(files, path) == Some(files[i]),
{
    crate::manifest::lemma_position(files, path);
    let k = crate::manifest::position(files, path)->0;
    if k < i {
        assert(files[k].path@ != path);
    }
    if i < k {
        assert(files[i].path@ != path);
    }
}

/// What a request is turned down for before anything is read: a path that no file has, an
/// offset at which the file does not go on, and no bytes. No other is.
pub proof fn law_blob_refused(
    files: Seq<FileEntry>,
    ns: Seq<char>,
    path: Seq<char>,
    off: u64,
    len: u64,
    hash: Option<Seq<char>>,
    slab: u64,
    i: int,
)
    ensures
        ({
            let first = blob_next(
                blob_start(files, ns, path, off, len, hash, slab),
                EventView::Begin,
            );
            &&& (forall|j: int| 0 <= j < files.len() ==> (#[trigger] files[j]).path@ != path) ==> {
                &&& first matches Some((_, ActionView::Refuse(r)))
                &&& r.status == 404
                &&& r.message == "file not in manifest"@
            }
            &&& found_at(files, path, i) && off >= files[i].size ==> {
                &&& first matches Some((_, ActionView::Refuse(r)))
                &&& r.status == 416
                &&& r.message == "offset beyond EOF"@
            }
            &&& found_at(files, path, i) && off < files[i].size && len == 0 ==> {
                &&& first matches Some((_, ActionView::Refuse(r)))
                &&& r.status == 400
                &&& r.message == "len must be > 0"@
            }
            &&& found_at(files, path, i) && off < files[i].size && len > 0 && slab > 0
                && files[i].size <= slab * (u32::MAX + 1) ==> {
                &&& first matches Some((_, ActionView::Lookup(key)))
                &&& key.page_id * slab <= off < key.page_id * slab + slab
            }
        }),
{
    crate::manifest::lemma_position(files, path);
    let v = blob_start(files, ns, path, off, len, hash, slab);
    if found_at(files, path, i) {
        lemma_found(files, path, i);
        if off < files[i].size && len > 0 && slab > 0 && files[i].size <= slab * (u32::MAX + 1) {
            let n = files[i].size;
            assert((n - 1) / (slab as int) <= u32::MAX) by (nonlinear_arith)
                requires
                    0 < n <= slab * (u32::MAX + 1),
                    slab > 0,
            ;
            lemma_pages_of_range(v);
        }
    }
}

/// A read of `len` bytes from `off` on, over a store that has the content of the file and
/// with a cache that holds, of this version of the file, only bytes of it, is answered with
/// the bytes of the content from `off` on: `len` of them, or as many as there are. It is
/// refused only right after outside work failed.
pub proof fn law_blob_answer(
    files: Seq<FileEntry>,
    i: int,
    ns: Seq<char>,
    path: Seq<char>,
    off: u64,
    len: u64,
    hash: Option<Seq<char>>,
    slab: u64,
    events: Seq<EventView>,
    worlds: Seq<World>,
    content: Seq<u8>,
)
    requires
        found_at(files, path, i),
        files[i].size == content.len(),
        read::true_table(files[i].page_table@, content, slab),
        off < content.len(),
        len > 0,
        slab > 0,
        content.len() <= slab * (u32::MAX + 1),
        answered(blob_start(files, ns, path, off, len, hash, slab), events, worlds),
        worlds[0].objects.contains_key(files[i].storage.key@),
        worlds[0].objects[files[i].storage.key@] == content,
        read::true_pages(
            worlds[0].cache,
            ns,
            path,
            match hash {
                Some(h) => h,
                None => files[i].hash@,
            },
            content,
            slab,
        ),
    ensures
        match blob_run(blob_start(files, ns, path, off, len, hash, slab), events) {
            Some((_, a)) => {
                &&& a matches ActionView::Reply(b) ==> {
                    &&& b.len() == if len < content.len() - off {
                        len as int
                    } else {
                        content.len() - off
                    }
                    &&& forall|j: int| 0 <= j < b.len() ==> #[trigger] b[j] == content[off + j]
                }
                &&& a is Refuse ==> read::failed(events.last())
            },
            None => false,
        },
        read::true_pages(
            worlds.last().cache,
            ns,
            path,
            match hash {
                Some(h) => h,
                None => files[i].hash@,
            },
            content,
            slab,
        ),
{
    let v = blob_start(files, ns, path, off, len, hash, slab);
    lemma_found(files, path, i);
    read::lemma_true(files[i], worlds[0].cache, ns, path, v.hash, content, slab);
    read::lemma_true(files[i], worlds.last().cache, ns, path, v.hash, content, slab);
    law_blob_reply(v, events, worlds, content);
}

/// Whatever the cache and the store give, a reply has as many bytes as were asked for, or
/// as the file has from `off` on.
pub proof fn law_blob_length(
    files: Seq<FileEntry>,
    i: int,
    ns: Seq<char>,
    path: Seq<char>,
    off: u64,
    len: u64,
    hash: Option<Seq<char>>,
    slab: u64,
    events: Seq<EventView>,
)
    requires
        found_at(files, path, i),
    ensures
        match blob_run(blob_start(files, ns, path, off, len, hash, slab), events) {
            Some((_, ActionView::Reply(b))) => b.len() == if len < files[i].size - off {
                len as int
            } else {
                files[i].size - off
            },
            _ => true,
        },
{
    lemma_found(files, path, i);
    lemma_length(blob_start(files, ns, path, off, len, hash, slab), events);
}

/// A read has not put more together than lies before where it is.
spec fn in_length(v: BlobView) -> bool {
    &&& v.wf()
    &&& v.phase matches PhaseView::Copy { cur, out, .. } ==> {
        &&& v.off <= cur <= v.end()
        &&& out.len() <= cur - v.off
    }
}

proof fn lemma_length_step(v: BlobView, e: EventView)
    requires
        in_length(v),
    ensures
        match blob_next(v, e) {
            Some((u, a)) => {
                &&& in_length(u)
                &&& v.at(u.phase) == u
                &&& a matches ActionView::Reply(b) ==> v.admitted() && b.len() == v.end() - v.off
            },
            None => true,
        },
{
    match v.phase {
        PhaseView::Copy { page_id, cur, out } => {
            lemma_page_in_range(v, page_id);
            if let EventView::Found(page) = e {
                if let Some((b, next)) = taken(page_start(v.slab, page_id), cur, v.end(), page) {
                    assert(next <= v.end());
                    assert(next >= cur);
                    assert((out + b).len() <= next - v.off);
                }
            }
        },
        _ => {},
    }
}

proof fn lemma_length(v: BlobView, events: Seq<EventView>)
    requires
        v.phase is Start,
    ensures
        match blob_run(v, events) {
            Some((u, a)) => {
                &&& in_length(u)
                &&& v.at(u.phase) == u
                &&& a matches ActionView::Reply(b) ==> v.admitted() && b.len() == v.end() - v.off
            },
            None => true,
        },
    decreases events.len(),
{
    if events.len() == 1 {
        lemma_length_step(v, events[0]);
    } else if events.len() > 1 {
        lemma_length(v, events.drop_last());
        if let Some((u, _)) = blob_run(v, events.drop_last()) {
            lemma_length_step(u, events.last());
        }
    }
}

/// Every page that a read looks up or puts has the namespace and the path of the request,
/// the hash that the request gives, or, without one, the whole hash of the file's entry, and
/// a number of a page that has bytes of the range.
pub proof fn law_blob_keys(
    files: Seq<FileEntry>,
    i: int,
    ns: Seq<char>,
    path: Seq<char>,
    off: u64,
    len: u64,
    hash: Option<Seq<char>>,
    slab: u64,
    events: Seq<EventView>,
)
    requires
        found_at(files, path, i),
        files[i].size <= slab * (u32::MAX + 1),
    ensures
        match blob_run(blob_start(files, ns, path, off, len, hash, slab), events) {
            Some((_, a)) => asked_key(a) matches Some(key) ==> {
                &&& key.ns == ns
                &&& key.path == path
                &&& hash is None ==> key.file_hash == files[i].hash@
                &&& hash is Some ==> key.file_hash == hash->0
                &&& key.page_id * slab < files[i].size
                &&& off < key.page_id * slab + slab
                &&& key.page_id * slab < off + len
            },
            None => true,
        },
{
    let v = blob_start(files, ns, path, off, len, hash, slab);
    lemma_found(files, path, i);
    lemma_asked_keys(v, events);
    if let Some((_, a)) = blob_run(v, events) {
        if let Some(key) = asked_key(a) {
            let n = files[i].size;
            assert((n - 1) / (slab as int) <= u32::MAX) by (nonlinear_arith)
                requires
                    0 < n <= slab * (u32::MAX + 1),
                    slab > 0,
            ;
            lemma_pages_of_range(v);
            lemma_page_in_range(v, key.page_id);
            read::lemma_page_start_monotone(slab, v.first(), key.page_id);
        }
    }
}

/// The key of the page that the cache is asked for or given.
pub open spec fn asked_key(a: ActionView) -> Option<CacheKeyView> {
    match a {
        ActionView::Lookup(key) => Some(key),
        ActionView::Store { key, .. } => Some(key),
        _ => None,
    }
}

proof fn lemma_asked_key(v: BlobView, e: EventView)
    requires
        v.wf(),
    ensures
        match blob_next(v, e) {
            Some((u, a)) => {
                &&& u.wf()
                &&& v.at(u.phase) == u
                &&& asked_key(a) matches Some(key) ==> {
                    &&& key.ns == v.ns
                    &&& key.path == v.path
                    &&& key.file_hash == v.hash
                    &&& v.slab > 0
                    &&& v.admitted()
                    &&& v.first() <= key.page_id <= v.last()
                }
            },
            None => true,
        },
{
}

proof fn lemma_asked_keys(v: BlobView, events: Seq<EventView>)
    requires
        v.phase is Start,
    ensures
        match blob_run(v, events) {
            Some((u, a)) => {
                &&& u.wf()
                &&& v.at(u.phase) == u
                &&& asked_key(a) matches Some(key) ==> {
                    &&& key.ns == v.ns
                    &&& key.path == v.path
                    &&& key.file_hash == v.hash
                    &&& v.slab > 0
                    &&& v.admitted()
                    &&& v.first() <= key.page_id <= v.last()
                }
            },
            None => true,
        },
    decreases events.len(),
{
    if events.len() == 1 {
        lemma_asked_key(v, events[0]);
    } else if events.len() > 1 {
        lemma_asked_keys(v, events.drop_last());
        if let Some((u, _)) = blob_run(v, events.drop_last()) {
            lemma_asked_key(u, events.last());
        }
    }
}

/// Reads of two versions of a file, by manifests that give it different hashes, have no
/// page of the cache in common.
pub proof fn law_versions_apart(
    before: Seq<FileEntry>,
    i: int,
    after: Seq<FileEntry>,
    j: int,
    ns: Seq<char>,
    path: Seq<char>,
    slab: u64,
    off: u64,
    len: u64,
    events: Seq<EventView>,
    off2: u64,
    len2: u64,
    events2: Seq<EventView>,
)
    requires
        found_at(before, path, i),
        found_at(after, path, j),
        before[i].hash@ != after[j].hash@,
    ensures
        match (
            blob_run(blob_start(before, ns, path, off, len, None, slab), events),
            blob_run(blob_start(after, ns, path, off2, len2, None, slab), events2),
        ) {
            (Some((_, a)), Some((_, b))) => match (asked_key(a), asked_key(b)) {
                (Some(k), Some(l)) => k != l,
                _ => true,
            },
            _ => true,
        },
{
    lemma_found(before, path, i);
    lemma_found(after, path, j);
    lemma_asked_keys(blob_start(before, ns, path, off, len, None, slab), events);
    lemma_asked_keys(blob_start(after, ns, path, off2, len2, None, slab), events2);
}

/// Once a file has a new version with another hash, a read by the new manifest is answered
/// with bytes of the new content, though the cache was filled by a read of the old one.
pub proof fn law_new_version_is_read(
    before: Seq<FileEntry>,
    i: int,
    after: Seq<FileEntry>,
    j: int,
    ns: Seq<char>,
    path: Seq<char>,
    slab: u64,
    off: u64,
    len: u64,
    events: Seq<EventView>,
    worlds: Seq<World>,
    off2: u64,
    len2: u64,
    events2: Seq<EventView>,
    worlds2: Seq<World>,
    content: Seq<u8>,
)
    requires
        found_at(before, path, i),
        found_at(after, path, j),
        before[i].hash@ != after[j].hash@,
        answered(blob_start(before, ns, path, off, len, None, slab), events, worlds),
        read::true_pages(worlds[0].cache, ns, path, after[j].hash@, content, slab),
        after[j].size == content.len(),
        read::true_table(after[j].page_table@, content, slab),
        off2 < content.len(),
        len2 > 0,
        slab > 0,
        content.len() <= slab * (u32::MAX + 1),
        answered(blob_start(after, ns, path, off2, len2, None, slab), events2, worlds2),
        worlds2[0].cache == worlds.last().cache,
        worlds2[0].objects.contains_key(after[j].storage.key@),
        worlds2[0].objects[after[j].storage.key@] == content,
    ensures
        match blob_run(blob_start(after, ns, path, off2, len2, None, slab), events2) {
            Some((_, a)) => {
                &&& a matches ActionView::Reply(b) ==> {
                    &&& b.len() == if len2 < content.len() - off2 {
                        len2 as int
                    } else {
                        content.len() - off2
                    }
                    &&& forall|k: int| 0 <= k < b.len() ==> #[trigger] b[k] == content[off2 + k]
                }
                &&& a is Refuse ==> read::failed(events2.last())
            },
            None => false,
        },
{
    let v = blob_start(before, ns, path, off, len, None, slab);
    lemma_found(before, path, i);
    let (c0, c) = (worlds[0].cache, worlds.last().cache);
    assert forall|k: CacheKeyView|
        #![trigger c.contains_key(k)]
        c.contains_key(k) && k.ns == ns && k.path == path && k.file_hash == after[j].hash@
            && k.page_id * slab < content.len() implies c[k] == read::bytes_from(
        content,
        k.page_id * slab,
        slab as int,
    ) by {
        law_blob_leaves_others(v, events, worlds, k);
        assert(c0.contains_key(k));
    }
    law_blob_answer(after, j, ns, path, off2, len2, None, slab, events2, worlds2, content);
}

/// A read gets on: as long as the stream gives bytes and no work fails, the bytes that are
/// yet to come grow fewer or the read gets further, and further than to its reply it does
/// not go. So a read comes to its end.
pub proof fn law_blob_gets_on(v: BlobView, e: EventView)
    ensures
        match blob_next(v, e) {
            Some((u, a)) => {
                &&& steps_done(u) > steps_done(v) || (steps_done(u) == steps_done(v) && e is Chunk)
                &&& steps_done(u) <= 1 + 8 * (u32::MAX + 1)
                &&& a is Reply || a is Refuse <==> u.phase is Done
            },
            None => true,
        },
{
}

/// A page that was brought in and is not there any more when it is to be copied from makes
/// the read fail as an error of the server; work that fails on the way of a page does so
/// with its error, and ends the read.
pub proof fn law_blob_gives_up(v: BlobView, e: EventView)
    ensures
        v.phase is Copy ==> {
            &&& blob_next(v, EventView::Absent) matches Some((u, ActionView::Refuse(r)))
            &&& r.status == 500
            &&& r.message == "l2 missing after fetch"@
            &&& u.phase is Done
        },
        v.phase is Fill && v.phase->fill is Probe ==> {
            &&& blob_next(v, EventView::Absent) matches Some((_, a))
            &&& a is Open
        },
        v.phase is Done ==> blob_next(v, e) is None,
{
}

} // verus!
